//! The transformation layer: the actions a search or optimizer applies to a move plan, and the
//! enumeration of which are legal, produced by the library so every consumer shares one action space.
//!
//! An [`Action`] names an edit ([`Action::apply`] performs it in place and returns which layers it
//! touched, for an incremental re-denote). Each action is tagged [`Preservation`]: reversal and
//! reordering preserve the denotation by construction; split, merge and seam relocation are
//! preserving in the exact case but are checked per application with the oracle.
//!
//! Appliers never produce an invalid program: an out-of-range index or an inapplicable action
//! returns [`TransformError`] and leaves the program untouched.
use vstd::prelude::*;

use crate::denote::{
    denote_lo, denote_lo_deposit, deposit_eq, lemma_lo_occupancy_view, occupancy_eq, view_deposit,
    view_occupancy,
};
use crate::denote::{lemma_same_counts, paths_count, view_paths};
use crate::ir::lo::{self, ToolpathView};
use crate::pass::travel_order::{
    lemma_vcount_concat, lemma_vcount_multiset, lemma_vcount_oriented, lemma_vcount_remove, oriented, vcount,
};
use crate::coverage::{smul, snonpos, ssub, sval};
use crate::ir::{Point, Polyline};
use crate::wide::{lemma_consts, lemma_u256_range};

verus! {

/// Whether an action's denotation-preservation is guaranteed by construction or must be verified
/// per application with the oracle.
#[derive(Clone, Copy, Debug, PartialEq, Eq, Structural)]
pub enum Preservation {
    /// Denotation-preserving by construction (reversal / reordering). No check needed.
    PreservingByConstruction,
    /// Preserving in the exact case, but apply-then-check with the oracle.
    NeedsVerification,
}

/// A named, reproducible edit to a move plan. The action space of a program is enumerated by
/// [`legal_actions`].
#[derive(Clone, Debug, PartialEq, Eq)]
pub enum Action {
    /// Reverse a toolpath's point order.
    ReversePath { layer: usize, toolpath: usize },
    /// Swap two toolpaths' positions.
    SwapToolpaths { layer: usize, a: usize, b: usize },
    /// Reorder a layer's toolpaths by a permutation (`perm[k]` = old index now at position `k`).
    PermuteToolpaths { layer: usize, perm: Vec<usize> },
    /// Insert a vertex `t_permille`/1000 of the way along a segment, splitting it in two (same
    /// toolpath). The inserted point rounds to integer microns.
    SplitSegment { layer: usize, toolpath: usize, segment: usize, t_permille: u16 },
    /// Drop every interior vertex that is exactly collinear with its neighbours from a toolpath.
    MergeCollinear { layer: usize, toolpath: usize },
    /// Rotate a closed loop's start vertex to index `vertex` (same set of edges, new seam).
    RelocateSeam { layer: usize, toolpath: usize, vertex: usize },
}

/// Why an [`Action::apply`] could not be performed. The program is left unchanged.
#[derive(Clone, Copy, Debug, PartialEq, Eq, Structural)]
pub enum TransformError {
    InvalidLayer,
    InvalidToolpath,
    InvalidSegment,
    InvalidVertex,
    /// A precondition failed (e.g. seam relocation on a non-closed path, a bad permutation).
    NotApplicable,
}

/// A move plan as plain values.
pub type ProgramView = Seq<(i64, Seq<ToolpathView>)>;

/// The layer an action edits.
pub open spec fn action_layer(a: Action) -> usize {
    match a {
        Action::ReversePath { layer, .. } => layer,
        Action::SwapToolpaths { layer, .. } => layer,
        Action::PermuteToolpaths { layer, .. } => layer,
        Action::SplitSegment { layer, .. } => layer,
        Action::MergeCollinear { layer, .. } => layer,
        Action::RelocateSeam { layer, .. } => layer,
    }
}

/// The toolpath an action edits, for the actions that edit one toolpath.
pub open spec fn action_toolpath(a: Action) -> Option<usize> {
    match a {
        Action::ReversePath { toolpath, .. } => Some(toolpath),
        Action::SplitSegment { toolpath, .. } => Some(toolpath),
        Action::MergeCollinear { toolpath, .. } => Some(toolpath),
        Action::RelocateSeam { toolpath, .. } => Some(toolpath),
        _ => None,
    }
}

/// A toolpath with new points.
pub open spec fn with_pts(t: ToolpathView, pts: Seq<Point>) -> ToolpathView {
    (t.0, pts, t.2, t.3)
}

/// A program whose layer `l` has new toolpaths.
pub open spec fn with_layer_tps(p: ProgramView, l: int, tps: Seq<ToolpathView>) -> ProgramView {
    p.update(l, (p[l].0, tps))
}

/// `perm` lists each index below `n` exactly once.
pub open spec fn is_perm(perm: Seq<usize>, n: int) -> bool {
    &&& perm.len() == n
    &&& forall|k: int| 0 <= k < n ==> #[trigger] perm[k] < n
    &&& forall|j: int, k: int| 0 <= j < k < n ==> #[trigger] perm[j] != #[trigger] perm[k]
}

/// `num / 1000`, rounded to the nearest integer, halves away from zero.
pub open spec fn round_per_mille(num: int) -> int {
    if num >= 0 {
        (num + 500) / 1000
    } else {
        -((-num + 500) / 1000)
    }
}

/// The point `t_permille`/1000 (clamped to the segment) of the way from `a` to `b`, rounded to
/// microns.
pub open spec fn split_point(a: Point, b: Point, t_permille: u16) -> (int, int) {
    let t = if t_permille > 1000 { 1000int } else { t_permille as int };
    (
        round_per_mille(1000 * a.x + t * (b.x - a.x)),
        round_per_mille(1000 * a.y + t * (b.y - a.y)),
    )
}

/// Exact collinearity of three points: the cross product of `b-a` and `c-a` is zero.
pub open spec fn collinear(a: Point, b: Point, c: Point) -> bool {
    (b.x - a.x) * (c.y - a.y) - (b.y - a.y) * (c.x - a.x) == 0
}

/// The kept vertices after scanning interior vertices `1..k` of `pts`: a vertex is dropped when it is
/// collinear with the last kept vertex and the next vertex.
pub open spec fn merge_prefix(pts: Seq<Point>, k: int) -> Seq<Point>
    decreases k,
{
    if k <= 1 {
        seq![pts[0]]
    } else {
        let o = merge_prefix(pts, k - 1);
        if collinear(o.last(), pts[k - 1], pts[k]) {
            o
        } else {
            o.push(pts[k - 1])
        }
    }
}

/// A chain with its removable collinear interior vertices dropped.
pub open spec fn merged(pts: Seq<Point>) -> Seq<Point> {
    merge_prefix(pts, pts.len() - 1).push(pts.last())
}

/// A closed loop restarted at its `v`-th vertex.
pub open spec fn reseamed(pts: Seq<Point>, v: int) -> Seq<Point> {
    let ring = pts.take(pts.len() - 1);
    ring.skip(v) + ring.take(v) + seq![ring[v]]
}

/// The effect of an action on a move plan: the new plan, or the error it reports.
pub open spec fn apply_spec(a: Action, p: ProgramView) -> Result<ProgramView, TransformError> {
    let l = action_layer(a) as int;
    if l >= p.len() {
        Err(TransformError::InvalidLayer)
    } else {
        let tps = p[l].1;
        match action_toolpath(a) {
            Some(t) => if t >= tps.len() {
                Err(TransformError::InvalidToolpath)
            } else {
                let tp = tps[t as int];
                let pts = tp.1;
                let set_pts = |q: Seq<Point>| with_layer_tps(p, l, tps.update(t as int, with_pts(tp, q)));
                match a {
                    Action::ReversePath { .. } => Ok(set_pts(pts.reverse())),
                    Action::SplitSegment { segment, t_permille, .. } => if segment + 1 >= pts.len() {
                        Err(TransformError::InvalidSegment)
                    } else {
                        let s = segment as int;
                        let m = split_point(pts[s], pts[s + 1], t_permille);
                        if (m.0 == pts[s].x && m.1 == pts[s].y) || (m.0 == pts[s + 1].x && m.1 == pts[s + 1].y) {
                            Err(TransformError::NotApplicable)
                        } else {
                            Ok(set_pts(pts.insert(s + 1, Point { x: m.0 as i64, y: m.1 as i64 })))
                        }
                    },
                    Action::MergeCollinear { .. } => if pts.len() < 3 || merged(pts).len() == pts.len() {
                        Err(TransformError::NotApplicable)
                    } else {
                        Ok(set_pts(merged(pts)))
                    },
                    Action::RelocateSeam { vertex, .. } => if pts.len() < 3 || pts[0] != pts.last() {
                        Err(TransformError::NotApplicable)
                    } else if vertex >= pts.len() - 1 {
                        Err(TransformError::InvalidVertex)
                    } else {
                        Ok(set_pts(reseamed(pts, vertex as int)))
                    },
                    _ => Err(TransformError::NotApplicable),
                }
            },
            None => match a {
                Action::SwapToolpaths { a: i, b: j, .. } => if i >= tps.len() || j >= tps.len() {
                    Err(TransformError::InvalidToolpath)
                } else {
                    Ok(with_layer_tps(p, l, tps.update(i as int, tps[j as int]).update(j as int, tps[i as int])))
                },
                Action::PermuteToolpaths { perm, .. } => if !is_perm(perm@, tps.len() as int) {
                    Err(TransformError::NotApplicable)
                } else {
                    Ok(with_layer_tps(p, l, perm@.map_values(|i: usize| tps[i as int])))
                },
                _ => Err(TransformError::NotApplicable),
            },
        }
    }
}

/// The preservation tag of an action.
pub open spec fn preservation_spec(a: Action) -> Preservation {
    match a {
        Action::ReversePath { .. } | Action::SwapToolpaths { .. } | Action::PermuteToolpaths {
            ..
        } => Preservation::PreservingByConstruction,
        _ => Preservation::NeedsVerification,
    }
}

/// Replace the points of one toolpath.
fn replace_points(program: &mut lo::Program, l: usize, t: usize, pts: Vec<Point>)
    requires
        l < old(program)@.len(),
        t < old(program)@[l as int].1.len(),
    ensures
        final(program)@ == with_layer_tps(
            old(program)@,
            l as int,
            old(program)@[l as int].1.update(t as int, with_pts(old(program)@[l as int].1[t as int], pts@)),
        ),
{
    let mut layer = program.layers[l].duplicate();
    let old_tp = &layer.toolpaths[t];
    let nt = lo::Toolpath { kind: old_tp.kind, path: Polyline::new(pts), width_um: old_tp.width_um, flow_e: old_tp.flow_e };
    let ghost before = layer@;
    layer.toolpaths.set(t, nt);
    assert(layer@ =~= (before.0, before.1.update(t as int, nt@)));
    let ghost pb = program@;
    program.layers.set(l, layer);
    assert(program@ =~= pb.update(l as int, layer@));
}

/// Replace the toolpaths of one layer.
fn replace_toolpaths(program: &mut lo::Program, l: usize, tps: Vec<lo::Toolpath>)
    requires
        l < old(program)@.len(),
    ensures
        final(program)@ == with_layer_tps(old(program)@, l as int, tps@.map_values(|t: lo::Toolpath| t@)),
{
    let z = program.layers[l].z_um;
    let nl = lo::Layer { z_um: z, toolpaths: tps };
    let ghost pb = program@;
    program.layers.set(l, nl);
    assert(program@ =~= pb.update(l as int, nl@));
}

fn reversed_points(v: &Vec<Point>) -> (r: Vec<Point>)
    ensures
        r@ == v@.reverse(),
{
    let mut r: Vec<Point> = Vec::new();
    let mut k: usize = v.len();
    while k > 0
        invariant
            k <= v.len(),
            r@ == v@.skip(k as int).reverse(),
        decreases k,
    {
        k -= 1;
        r.push(v[k]);
        assert(r@ =~= v@.skip(k as int).reverse());
    }
    assert(v@.skip(0) =~= v@);
    r
}

fn round_per_mille_exec(num: i128) -> (r: i128)
    requires
        -0x1000_0000_0000_0000_0000_0000 < num < 0x1000_0000_0000_0000_0000_0000,
    ensures
        r == round_per_mille(num as int),
{
    if num >= 0 {
        (num + 500) / 1000
    } else {
        -((-num + 500) / 1000)
    }
}

proof fn lemma_split_in_range(a: int, b: int, t: int)
    requires
        0 <= t <= 1000,
        i64::MIN <= a <= i64::MAX,
        i64::MIN <= b <= i64::MAX,
    ensures
        i64::MIN <= round_per_mille(1000 * a + t * (b - a)) <= i64::MAX,
        -0x1000_0000_0000_0000_0000_0000 < 1000 * a + t * (b - a) < 0x1000_0000_0000_0000_0000_0000,
{
    let lo = if a <= b { a } else { b };
    let hi = if a <= b { b } else { a };
    assert(1000 * lo <= 1000 * a + t * (b - a) <= 1000 * hi) by (nonlinear_arith)
        requires
            0 <= t <= 1000,
            lo == (if a <= b { a } else { b }),
            hi == (if a <= b { b } else { a }),
    ;
}

fn collinear_exec(a: Point, b: Point, c: Point) -> (r: bool)
    ensures
        r == collinear(a, b, c),
{
    let bx = b.x as i128 - a.x as i128;
    let by = b.y as i128 - a.y as i128;
    let cx = c.x as i128 - a.x as i128;
    let cy = c.y as i128 - a.y as i128;
    proof {
        assert(-0x1_0000_0000_0000_0000 * 0x1_0000_0000_0000_0000 <= bx * cy <= 0x1_0000_0000_0000_0000 * 0x1_0000_0000_0000_0000) by (nonlinear_arith)
            requires
                -0x1_0000_0000_0000_0000 <= bx <= 0x1_0000_0000_0000_0000,
                -0x1_0000_0000_0000_0000 <= cy <= 0x1_0000_0000_0000_0000,
        ;
        assert(-0x1_0000_0000_0000_0000 * 0x1_0000_0000_0000_0000 <= by * cx <= 0x1_0000_0000_0000_0000 * 0x1_0000_0000_0000_0000) by (nonlinear_arith)
            requires
                -0x1_0000_0000_0000_0000 <= by <= 0x1_0000_0000_0000_0000,
                -0x1_0000_0000_0000_0000 <= cx <= 0x1_0000_0000_0000_0000,
        ;
    }
    let p1 = smul(bx, cy);
    let p2 = smul(by, cx);
    proof {
        lemma_u256_range(p1.1);
        lemma_u256_range(p2.1);
        lemma_consts();
    }
    let d = ssub(p1, p2);
    snonpos(d) && snonpos((!d.0, d.1))
}

fn merge_points(pts: &Vec<Point>) -> (out: Vec<Point>)
    requires
        pts@.len() >= 3,
    ensures
        out@ == merged(pts@),
{
    let n = pts.len();
    let mut out: Vec<Point> = Vec::new();
    out.push(pts[0]);
    let mut k: usize = 1;
    assert(out@ =~= merge_prefix(pts@, 1));
    while k < n - 1
        invariant
            n == pts@.len(),
            n >= 3,
            1 <= k <= n - 1,
            out@ == merge_prefix(pts@, k as int),
            out@.len() >= 1,
        decreases n - k,
    {
        let prev = out[out.len() - 1];
        if !collinear_exec(prev, pts[k], pts[k + 1]) {
            out.push(pts[k]);
        }
        k += 1;
    }
    out.push(pts[n - 1]);
    out
}

fn reseam_points(pts: &Vec<Point>, v: usize) -> (out: Vec<Point>)
    requires
        pts@.len() >= 3,
        v < pts@.len() - 1,
    ensures
        out@ == reseamed(pts@, v as int),
{
    let n = pts.len() - 1;
    let mut out: Vec<Point> = Vec::new();
    let mut k: usize = v;
    while k < n
        invariant
            n == pts@.len() - 1,
            v <= k <= n,
            out@ == pts@.take(n as int).skip(v as int).take(k - v),
        decreases n - k,
    {
        out.push(pts[k]);
        k += 1;
        assert(out@ =~= pts@.take(n as int).skip(v as int).take(k - v));
    }
    let mut j: usize = 0;
    assert(pts@.take(n as int).skip(v as int).take(n - v) =~= pts@.take(n as int).skip(v as int));
    while j < v
        invariant
            n == pts@.len() - 1,
            v < n,
            j <= v,
            out@ == pts@.take(n as int).skip(v as int) + pts@.take(n as int).take(j as int),
        decreases v - j,
    {
        out.push(pts[j]);
        j += 1;
        assert(out@ =~= pts@.take(n as int).skip(v as int) + pts@.take(n as int).take(j as int));
    }
    out.push(pts[v]);
    out
}

fn is_permutation(perm: &Vec<usize>, n: usize) -> (r: bool)
    ensures
        r == is_perm(perm@, n as int),
{
    if perm.len() != n {
        return false;
    }
    let mut seen: Vec<bool> = Vec::new();
    let mut k: usize = 0;
    while k < n
        invariant
            k <= n,
            seen@.len() == k,
            forall|i: int| 0 <= i < k ==> !#[trigger] seen@[i],
        decreases n - k,
    {
        seen.push(false);
        k += 1;
    }
    let mut j: usize = 0;
    while j < n
        invariant
            j <= n,
            perm@.len() == n,
            seen@.len() == n,
            forall|t: int| 0 <= t < j ==> #[trigger] perm@[t] < n,
            forall|t: int, s: int| 0 <= t < s < j ==> #[trigger] perm@[t] != #[trigger] perm@[s],
            forall|i: int| 0 <= i < n ==> (#[trigger] seen@[i] <==> exists|t: int| 0 <= t < j && perm@[t] == i),
        decreases n - j,
    {
        let i = perm[j];
        if i >= n {
            return false;
        }
        if seen[i] {
            proof {
                let t = choose|t: int| 0 <= t < j && perm@[t] == i;
                assert(perm@[t] == perm@[j as int]);
            }
            return false;
        }
        proof {
            assert forall|t: int| 0 <= t < j implies perm@[t] != perm@[j as int] by {
                if perm@[t] == perm@[j as int] {
                    assert(seen@[i as int]);
                }
            }
        }
        let ghost before = seen@;
        seen.set(i, true);
        proof {
            assert forall|x: int| 0 <= x < n implies (#[trigger] seen@[x] <==> exists|t: int| 0 <= t < j + 1 && perm@[t] == x) by {
                if x == i {
                    assert(perm@[j as int] == x);
                } else {
                    assert(seen@[x] == before[x]);
                    if exists|t: int| 0 <= t < j + 1 && perm@[t] == x {
                        let t = choose|t: int| 0 <= t < j + 1 && perm@[t] == x;
                        assert(t != j);
                    }
                }
            }
        }
        j += 1;
    }
    true
}

fn permuted(tps: &Vec<lo::Toolpath>, perm: &Vec<usize>) -> (out: Vec<lo::Toolpath>)
    requires
        is_perm(perm@, tps@.len() as int),
    ensures
        out@.map_values(|t: lo::Toolpath| t@) == perm@.map_values(|i: usize| tps@.map_values(|t: lo::Toolpath| t@)[i as int]),
{
    let ghost tv = tps@.map_values(|t: lo::Toolpath| t@);
    let mut out: Vec<lo::Toolpath> = Vec::new();
    let mut k: usize = 0;
    while k < perm.len()
        invariant
            k <= perm.len(),
            is_perm(perm@, tps@.len() as int),
            tv == tps@.map_values(|t: lo::Toolpath| t@),
            out@.map_values(|t: lo::Toolpath| t@) == perm@.take(k as int).map_values(|i: usize| tv[i as int]),
        decreases perm.len() - k,
    {
        let i = perm[k];
        let ghost before = out@.map_values(|t: lo::Toolpath| t@);
        let d = tps[i].duplicate();
        out.push(d);
        assert(out@.map_values(|t: lo::Toolpath| t@) =~= before.push(tv[i as int]));
        k += 1;
        assert(perm@.take(k as int).map_values(|i: usize| tv[i as int]) =~= perm@.take(k - 1).map_values(
            |i: usize| tv[i as int],
        ).push(tv[perm@[k - 1] as int]));
    }
    assert(perm@.take(k as int) =~= perm@);
    out
}

impl Action {
    /// The layer this action edits.
    pub fn layer(&self) -> (l: usize)
        ensures
            l == action_layer(*self),
    {
        match self {
            Action::ReversePath { layer, .. } => *layer,
            Action::SwapToolpaths { layer, .. } => *layer,
            Action::PermuteToolpaths { layer, .. } => *layer,
            Action::SplitSegment { layer, .. } => *layer,
            Action::MergeCollinear { layer, .. } => *layer,
            Action::RelocateSeam { layer, .. } => *layer,
        }
    }

    /// Whether this action preserves denotation by construction or needs verification.
    pub fn preservation(&self) -> (p: Preservation)
        ensures
            p == preservation_spec(*self),
    {
        match self {
            Action::ReversePath { .. } | Action::SwapToolpaths { .. } | Action::PermuteToolpaths {
                ..
            } => Preservation::PreservingByConstruction,
            _ => Preservation::NeedsVerification,
        }
    }

    /// Apply the action in place, returning the layer indices it changed (for an incremental
    /// re-denote). On any error the program is left untouched.
    pub fn apply(&self, program: &mut lo::Program) -> (r: Result<Vec<usize>, TransformError>)
        ensures
            match r {
                Ok(touched) => touched@ == seq![action_layer(*self)] && apply_spec(*self, old(program)@)
                    == Ok::<ProgramView, TransformError>(final(program)@),
                Err(e) => apply_spec(*self, old(program)@) == Err::<ProgramView, TransformError>(e)
                    && final(program)@ == old(program)@,
            },
    {
        let l = self.layer();
        if l >= program.layers.len() {
            return Err(TransformError::InvalidLayer);
        }
        let ghost p = program@;
        match self {
            Action::SwapToolpaths { a, b, .. } => {
                let n = program.layers[l].toolpaths.len();
                if *a >= n || *b >= n {
                    return Err(TransformError::InvalidToolpath);
                }
                let layer = &program.layers[l];
                let ta = layer.toolpaths[*a].duplicate();
                let tb = layer.toolpaths[*b].duplicate();
                let mut tps: Vec<lo::Toolpath> = Vec::new();
                let mut k: usize = 0;
                let ghost tv = p[l as int].1;
                let ghost target = tv.update(*a as int, tv[*b as int]).update(*b as int, tv[*a as int]);
                while k < n
                    invariant
                        k <= n,
                        n == layer.toolpaths@.len(),
                        tv == layer@.1,
                        *a < n && *b < n,
                        ta@ == tv[*a as int],
                        tb@ == tv[*b as int],
                        target == tv.update(*a as int, tv[*b as int]).update(*b as int, tv[*a as int]),
                        tps@.map_values(|t: lo::Toolpath| t@) == target.take(k as int),
                    decreases n - k,
                {
                    let ghost before = tps@.map_values(|t: lo::Toolpath| t@);
                    let d = if k == *b {
                        ta.duplicate()
                    } else if k == *a {
                        tb.duplicate()
                    } else {
                        layer.toolpaths[k].duplicate()
                    };
                    tps.push(d);
                    assert(tps@.map_values(|t: lo::Toolpath| t@) =~= before.push(target[k as int]));
                    k += 1;
                    assert(target.take(k as int) =~= target.take(k - 1).push(target[k - 1]));
                }
                assert(target.take(k as int) =~= target);
                replace_toolpaths(program, l, tps);
                Ok(vec![l])
            },
            Action::PermuteToolpaths { perm, .. } => {
                let n = program.layers[l].toolpaths.len();
                if !is_permutation(perm, n) {
                    return Err(TransformError::NotApplicable);
                }
                let tps = permuted(&program.layers[l].toolpaths, perm);
                replace_toolpaths(program, l, tps);
                Ok(vec![l])
            },
            Action::ReversePath { toolpath, .. } => {
                let t = *toolpath;
                if t >= program.layers[l].toolpaths.len() {
                    return Err(TransformError::InvalidToolpath);
                }
                let pts = reversed_points(&program.layers[l].toolpaths[t].path.points);
                replace_points(program, l, t, pts);
                Ok(vec![l])
            },
            Action::SplitSegment { toolpath, segment, t_permille, .. } => {
                let t = *toolpath;
                if t >= program.layers[l].toolpaths.len() {
                    return Err(TransformError::InvalidToolpath);
                }
                let pts = &program.layers[l].toolpaths[t].path.points;
                if *segment >= pts.len() || *segment + 1 >= pts.len() {
                    return Err(TransformError::InvalidSegment);
                }
                let a = pts[*segment];
                let b = pts[*segment + 1];
                let tt: i128 = if *t_permille > 1000 { 1000 } else { *t_permille as i128 };
                proof {
                    lemma_split_in_range(a.x as int, b.x as int, tt as int);
                    lemma_split_in_range(a.y as int, b.y as int, tt as int);
                }
                let mx = round_per_mille_exec(1000 * a.x as i128 + tt * (b.x as i128 - a.x as i128));
                let my = round_per_mille_exec(1000 * a.y as i128 + tt * (b.y as i128 - a.y as i128));
                if (mx == a.x as i128 && my == a.y as i128) || (mx == b.x as i128 && my == b.y as i128) {
                    return Err(TransformError::NotApplicable);
                }
                let mid = Point::new(mx as i64, my as i64);
                let mut np = crate::ir::copy_points(pts);
                np.insert(*segment + 1, mid);
                replace_points(program, l, t, np);
                Ok(vec![l])
            },
            Action::MergeCollinear { toolpath, .. } => {
                let t = *toolpath;
                if t >= program.layers[l].toolpaths.len() {
                    return Err(TransformError::InvalidToolpath);
                }
                let pts = &program.layers[l].toolpaths[t].path.points;
                if pts.len() < 3 {
                    return Err(TransformError::NotApplicable);
                }
                let out = merge_points(pts);
                if out.len() == pts.len() {
                    return Err(TransformError::NotApplicable);
                }
                replace_points(program, l, t, out);
                Ok(vec![l])
            },
            Action::RelocateSeam { toolpath, vertex, .. } => {
                let t = *toolpath;
                if t >= program.layers[l].toolpaths.len() {
                    return Err(TransformError::InvalidToolpath);
                }
                let pts = &program.layers[l].toolpaths[t].path.points;
                if pts.len() < 3 || pts[0] != pts[pts.len() - 1] {
                    return Err(TransformError::NotApplicable);
                }
                if *vertex >= pts.len() - 1 {
                    return Err(TransformError::InvalidVertex);
                }
                let out = reseam_points(pts, *vertex);
                replace_points(program, l, t, out);
                Ok(vec![l])
            },
        }
    }
}

/// Whether `before` and `after` deposit the same material (occupancy) at `resolution_um`: the
/// check to run after a [`Preservation::NeedsVerification`] action.
pub fn preserves_occupancy(before: &lo::Program, after: &lo::Program, resolution_um: i64) -> (r: bool)
    ensures
        r == (view_occupancy(before@, resolution_um as int) == view_occupancy(after@, resolution_um as int)),
{
    let a = denote_lo(before, resolution_um);
    let b = denote_lo(after, resolution_um);
    proof {
        lemma_lo_occupancy_view(*before, resolution_um as int);
        lemma_lo_occupancy_view(*after, resolution_um as int);
    }
    occupancy_eq(&a, &b)
}

/// Whether `before` and `after` agree on the per-cell deposition count (stricter: also rejects
/// path duplication / splitting that changes multiplicity).
pub fn preserves_deposit(before: &lo::Program, after: &lo::Program, resolution_um: i64) -> (r: bool)
    requires
        forall|i: int| 0 <= i < before.layers@.len() ==> #[trigger] before.layers@[i].toolpaths@.len() <= u32::MAX,
        forall|i: int| 0 <= i < after.layers@.len() ==> #[trigger] after.layers@[i].toolpaths@.len() <= u32::MAX,
    ensures
        r == (view_deposit(before@, resolution_um as int) == view_deposit(after@, resolution_um as int)),
{
    let a = denote_lo_deposit(before, resolution_um);
    let b = denote_lo_deposit(after, resolution_um);
    proof {
        lemma_lo_occupancy_view(*before, resolution_um as int);
        lemma_lo_occupancy_view(*after, resolution_um as int);
    }
    deposit_eq(&a, &b)
}

/// Reversal of each of the first `i` toolpaths of a layer of `n`, each followed by the swap with its
/// successor when there is one.
pub open spec fn reorder_actions(li: usize, n: int, i: int) -> Seq<Action>
    decreases i,
{
    if i <= 0 {
        Seq::empty()
    } else {
        reorder_actions(li, n, i - 1) + seq![Action::ReversePath { layer: li, toolpath: (i - 1) as usize }] + if i
            < n {
            seq![Action::SwapToolpaths { layer: li, a: (i - 1) as usize, b: i as usize }]
        } else {
            Seq::empty()
        }
    }
}

/// A midpoint split of each of the first `m` segments of a toolpath.
pub open spec fn split_actions(li: usize, ti: usize, m: int) -> Seq<Action>
    decreases m,
{
    if m <= 0 {
        Seq::empty()
    } else {
        split_actions(li, ti, m - 1).push(
            Action::SplitSegment { layer: li, toolpath: ti, segment: (m - 1) as usize, t_permille: 500 },
        )
    }
}

/// A seam relocation to each vertex `0..v` of a toolpath.
pub open spec fn seam_actions(li: usize, ti: usize, v: int) -> Seq<Action>
    decreases v,
{
    if v <= 0 {
        Seq::empty()
    } else {
        seam_actions(li, ti, v - 1).push(Action::RelocateSeam { layer: li, toolpath: ti, vertex: (v - 1) as usize })
    }
}

/// Some interior vertex of the chain is collinear with its neighbours.
pub open spec fn has_collinear(pts: Seq<Point>) -> bool {
    exists|k: int| 1 <= k < pts.len() - 1 && #[trigger] collinear(pts[k - 1], pts[k], pts[k + 1])
}

/// The legal actions on one toolpath: its splits, a merge when a vertex is removable, and its seam
/// relocations when it is a closed loop.
pub open spec fn tp_actions(li: usize, ti: usize, pts: Seq<Point>) -> Seq<Action> {
    split_actions(li, ti, pts.len() - 1) + (if pts.len() >= 3 && has_collinear(pts) {
        seq![Action::MergeCollinear { layer: li, toolpath: ti }]
    } else {
        Seq::empty()
    }) + (if pts.len() >= 3 && pts[0] == pts.last() {
        seam_actions(li, ti, pts.len() - 1)
    } else {
        Seq::empty()
    })
}

/// The per-toolpath legal actions of the first `k` toolpaths of a layer.
pub open spec fn tps_actions(li: usize, tps: Seq<ToolpathView>, k: int) -> Seq<Action>
    decreases k,
{
    if k <= 0 {
        Seq::empty()
    } else {
        tps_actions(li, tps, k - 1) + tp_actions(li, (k - 1) as usize, tps[k - 1].1)
    }
}

/// The legal actions on layer `li`.
pub open spec fn layer_actions(li: usize, tps: Seq<ToolpathView>) -> Seq<Action> {
    reorder_actions(li, tps.len() as int, tps.len() as int) + tps_actions(li, tps, tps.len() as int)
}

/// The legal actions on the first `k` layers of a program.
pub open spec fn legal_spec(p: ProgramView, k: int) -> Seq<Action>
    decreases k,
{
    if k <= 0 {
        Seq::empty()
    } else {
        legal_spec(p, k - 1) + layer_actions((k - 1) as usize, p[k - 1].1)
    }
}

fn push_tp_actions(acts: &mut Vec<Action>, li: usize, ti: usize, pts: &Vec<Point>)
    ensures
        final(acts)@ == old(acts)@ + tp_actions(li, ti, pts@),
{
    let ghost init = acts@;
    let n = pts.len();
    let m: usize = if n == 0 { 0 } else { n - 1 };
    let mut s: usize = 0;
    while s < m
        invariant
            s <= m,
            m == (if n == 0 { 0 } else { n - 1 }),
            acts@ == init + split_actions(li, ti, s as int),
        decreases m - s,
    {
        acts.push(Action::SplitSegment { layer: li, toolpath: ti, segment: s, t_permille: 500 });
        s += 1;
        assert(acts@ =~= init + split_actions(li, ti, s as int));
    }
    assert(split_actions(li, ti, m as int) == split_actions(li, ti, pts@.len() - 1)) by {
        if n == 0 {
            assert(split_actions(li, ti, -1) == Seq::<Action>::empty());
        }
    }
    let ghost after_split = acts@;
    if n >= 3 {
        let mut found = false;
        let mut k: usize = 1;
        while k < n - 1
            invariant
                n == pts@.len(),
                n >= 3,
                1 <= k <= n - 1,
                found == exists|j: int| 1 <= j < k && #[trigger] collinear(pts@[j - 1], pts@[j], pts@[j + 1]),
            decreases n - k,
        {
            if collinear_exec(pts[k - 1], pts[k], pts[k + 1]) {
                found = true;
            }
            k += 1;
        }
        if found {
            acts.push(Action::MergeCollinear { layer: li, toolpath: ti });
        }
    }
    let ghost after_merge = acts@;
    assert(after_merge == after_split + (if pts@.len() >= 3 && has_collinear(pts@) {
        seq![Action::MergeCollinear { layer: li, toolpath: ti }]
    } else {
        Seq::empty()
    }));
    if n >= 3 && pts[0] == pts[n - 1] {
        let mut v: usize = 0;
        assert(acts@ =~= after_merge + seam_actions(li, ti, 0));
        while v < n - 1
            invariant
                n == pts@.len(),
                n >= 3,
                0 <= v <= n - 1,
                acts@ == after_merge + seam_actions(li, ti, v as int),
            decreases n - v,
        {
            acts.push(Action::RelocateSeam { layer: li, toolpath: ti, vertex: v });
            v += 1;
            assert(acts@ =~= after_merge + seam_actions(li, ti, v as int));
        }
        assert(acts@ =~= init + tp_actions(li, ti, pts@));
    } else {
        assert(acts@ =~= init + tp_actions(li, ti, pts@));
    }
}

/// Enumerate the legal actions over a program: the shared action space.
///
/// Reordering is generated by adjacent transpositions, which generate the whole symmetric group, so
/// the space stays linear in toolpath count. Also emitted: a reversal for every toolpath, one midpoint
/// split per segment, a collinear merge for any toolpath with a removable vertex, and a seam
/// relocation to each vertex of a closed loop.
pub fn legal_actions(program: &lo::Program) -> (acts: Vec<Action>)
    ensures
        acts@ == legal_spec(program@, program@.len() as int),
{
    let mut acts: Vec<Action> = Vec::new();
    let mut li: usize = 0;
    while li < program.layers.len()
        invariant
            li <= program.layers.len(),
            acts@ == legal_spec(program@, li as int),
        decreases program.layers.len() - li,
    {
        let layer = &program.layers[li];
        let n = layer.toolpaths.len();
        let ghost tv = layer@.1;
        let ghost base = acts@;
        let mut i: usize = 0;
        while i < n
            invariant
                i <= n,
                n == tv.len(),
                acts@ == base + reorder_actions(li, n as int, i as int),
            decreases n - i,
        {
            let ghost before = acts@;
            acts.push(Action::ReversePath { layer: li, toolpath: i });
            if i + 1 < n {
                acts.push(Action::SwapToolpaths { layer: li, a: i, b: i + 1 });
            }
            i += 1;
            assert(acts@ =~= base + reorder_actions(li, n as int, i as int));
        }
        let ghost mid = acts@;
        let mut t: usize = 0;
        while t < n
            invariant
                t <= n,
                n == tv.len(),
                tv == layer@.1,
                layer == &program.layers@[li as int],
                acts@ == mid + tps_actions(li, tv, t as int),
            decreases n - t,
        {
            let ghost before = acts@;
            push_tp_actions(&mut acts, li, t, &layer.toolpaths[t].path.points);
            t += 1;
            assert(acts@ =~= mid + tps_actions(li, tv, t as int));
        }
        proof {
            assert(program@[li as int].1 == tv);
            assert(acts@ =~= base + layer_actions(li, tv));
        }
        li += 1;
    }
    acts
}

/// A permutation of `n` with the entry `r` taken out of its last place, the others renumbered.
pub open spec fn perm_without_last(perm: Seq<usize>, r: int) -> Seq<usize> {
    perm.drop_last().map_values(|v: usize| if (v as int) > r { (v - 1) as usize } else { v })
}

proof fn lemma_vcount_perm(tps: Seq<ToolpathView>, perm: Seq<usize>, res: int, c: (i64, i64))
    requires
        is_perm(perm, tps.len() as int),
    ensures
        vcount(perm.map_values(|i: usize| tps[i as int]), res, c) == vcount(tps, res, c),
    decreases tps.len(),
{
    let tq = perm.map_values(|i: usize| tps[i as int]);
    if tps.len() == 0 {
        assert(tq =~= tps);
    } else {
        let n = tps.len() - 1;
        let r = perm[n] as int;
        let perm2 = perm_without_last(perm, r);
        let rest = tps.remove(r);
        assert forall|k: int| 0 <= k < n implies #[trigger] perm2[k] < n by {
            assert(perm[k] != perm[n]);
        }
        assert forall|j: int, k: int| 0 <= j < k < n implies #[trigger] perm2[j] != #[trigger] perm2[k] by {
            assert(perm[j] != perm[k]);
            assert(perm[j] != perm[n]);
            assert(perm[k] != perm[n]);
        }
        assert(is_perm(perm2, n));
        let moved = perm2.map_values(|i: usize| rest[i as int]);
        assert forall|k: int| 0 <= k < n implies #[trigger] moved[k] == tq.drop_last()[k] by {
            assert(perm[k] != perm[n]);
        }
        assert(moved =~= tq.drop_last());
        lemma_vcount_perm(rest, perm2, res, c);
        lemma_vcount_concat(tq.drop_last(), seq![tq[n]], res, c);
        assert(tq.drop_last() + seq![tq[n]] =~= tq);
        lemma_vcount_remove(tps, r, res, c);
    }
}

/// Reversing one toolpath, swapping two, or reordering a layer's toolpaths by a permutation (the
/// actions tagged preserving by construction) never changes the deposited material or the per-cell
/// path counts.
pub proof fn lemma_preserving_actions(a: Action, p: ProgramView, q: ProgramView, res: int)
    requires
        apply_spec(a, p) == Ok::<ProgramView, TransformError>(q),
        preservation_spec(a) == Preservation::PreservingByConstruction,
    ensures
        view_occupancy(q, res) == view_occupancy(p, res),
        view_deposit(q, res) == view_deposit(p, res),
{
    broadcast use vstd::seq_lib::group_to_multiset_ensures;

    let l = action_layer(a) as int;
    let tps = p[l].1;
    let tq = q[l].1;
    assert forall|c: (i64, i64)| #[trigger] paths_count(view_paths(tq), res, c) == paths_count(view_paths(tps), res, c) by {
        match a {
            Action::ReversePath { toolpath, .. } => {
                let t = toolpath as int;
                let x = with_pts(tps[t], tps[t].1.reverse());
                assert(tq == tps.update(t, x));
                assert(x == oriented(tps[t], true));
                lemma_vcount_remove(tps, t, res, c);
                lemma_vcount_remove(tq, t, res, c);
                assert(tq.remove(t) =~= tps.remove(t));
                assert(seq![tq[t]] == seq![oriented(tps[t], true)]);
                lemma_vcount_oriented(tps[t], true, res, c);
            },
            Action::SwapToolpaths { a: i, b: j, .. } => {
                let u = tps.update(i as int, tps[j as int]);
                assert(tq == u.update(j as int, tps[i as int]));
                assert(tq.to_multiset() =~= tps.to_multiset());
                lemma_vcount_multiset(tq, tps, res, c);
            },
            Action::PermuteToolpaths { perm, .. } => {
                assert(tq == perm@.map_values(|i: usize| tps[i as int]));
                lemma_vcount_perm(tps, perm@, res, c);
            },
            _ => {},
        }
    }
    assert forall|k: int| 0 <= k < p.len() implies #[trigger] view_occupancy(q, res)[k] == view_occupancy(p, res)[k] by {
        if k == l {
            lemma_same_counts(view_paths(tq), view_paths(tps), res);
        }
    }
    assert forall|k: int| 0 <= k < p.len() implies #[trigger] view_deposit(q, res)[k] == view_deposit(p, res)[k] by {
        if k == l {
            lemma_same_counts(view_paths(tq), view_paths(tps), res);
        }
    }
    assert(view_occupancy(q, res) =~= view_occupancy(p, res));
    assert(view_deposit(q, res) =~= view_deposit(p, res));
}


/// The indices an action names exist in `p`, and its point-level precondition holds: what
/// `legal_actions` promises of each action it lists.
spec fn legal_for(a: Action, p: ProgramView) -> bool {
    let l = action_layer(a) as int;
    &&& l < p.len()
    &&& match a {
        Action::ReversePath { toolpath, .. } => toolpath < p[l].1.len(),
        Action::SwapToolpaths { a: i, b: j, .. } => i < p[l].1.len() && j < p[l].1.len(),
        Action::SplitSegment { toolpath, segment, .. } => toolpath < p[l].1.len() && segment + 1
            < p[l].1[toolpath as int].1.len(),
        Action::MergeCollinear { toolpath, .. } => toolpath < p[l].1.len() && p[l].1[toolpath as int].1.len()
            >= 3 && has_collinear(p[l].1[toolpath as int].1),
        Action::RelocateSeam { toolpath, vertex, .. } => {
            let pts = p[l].1[toolpath as int].1;
            toolpath < p[l].1.len() && pts.len() >= 3 && pts[0] == pts.last() && vertex < pts.len() - 1
        },
        Action::PermuteToolpaths { .. } => false,
    }
}

spec fn all_legal(s: Seq<Action>, p: ProgramView) -> bool {
    forall|j: int| 0 <= j < s.len() ==> #[trigger] legal_for(s[j], p)
}

/// The sizes of a move plan fit the machine's index type, as those of any stored program do.
pub open spec fn indexable(p: ProgramView) -> bool {
    &&& p.len() <= usize::MAX
    &&& forall|l: int| 0 <= l < p.len() ==> #[trigger] p[l].1.len() <= usize::MAX
    &&& forall|l: int, t: int| 0 <= l < p.len() && 0 <= t < p[l].1.len() ==> #[trigger] p[l].1[t].1.len()
        <= usize::MAX
}

proof fn lemma_all_legal_concat(s1: Seq<Action>, s2: Seq<Action>, p: ProgramView)
    requires
        all_legal(s1, p),
        all_legal(s2, p),
    ensures
        all_legal(s1 + s2, p),
{
    assert forall|j: int| 0 <= j < (s1 + s2).len() implies #[trigger] legal_for((s1 + s2)[j], p) by {
        if j < s1.len() {
            assert((s1 + s2)[j] == s1[j]);
        } else {
            assert((s1 + s2)[j] == s2[j - s1.len()]);
        }
    }
}

proof fn lemma_reorder_legal(p: ProgramView, li: usize, i: int)
    requires
        indexable(p),
        li < p.len(),
        0 <= i <= p[li as int].1.len(),
    ensures
        all_legal(reorder_actions(li, p[li as int].1.len() as int, i), p),
    decreases i,
{
    let n = p[li as int].1.len() as int;
    if i > 0 {
        lemma_reorder_legal(p, li, i - 1);
        let r = seq![Action::ReversePath { layer: li, toolpath: (i - 1) as usize }];
        let w: Seq<Action> = if i < n {
            seq![Action::SwapToolpaths { layer: li, a: (i - 1) as usize, b: i as usize }]
        } else {
            Seq::empty()
        };
        assert(legal_for(r[0], p));
        assert(all_legal(r, p));
        if i < n {
            assert(legal_for(w[0], p));
        }
        assert(all_legal(w, p));
        lemma_all_legal_concat(reorder_actions(li, n, i - 1), r, p);
        lemma_all_legal_concat(reorder_actions(li, n, i - 1) + r, w, p);
    }
}

proof fn lemma_split_legal(p: ProgramView, li: usize, ti: usize, m: int)
    requires
        indexable(p),
        li < p.len(),
        ti < p[li as int].1.len(),
        m <= p[li as int].1[ti as int].1.len() - 1,
    ensures
        all_legal(split_actions(li, ti, m), p),
    decreases m,
{
    if m > 0 {
        lemma_split_legal(p, li, ti, m - 1);
        let a = Action::SplitSegment { layer: li, toolpath: ti, segment: (m - 1) as usize, t_permille: 500 };
        assert(legal_for(a, p));
        assert(split_actions(li, ti, m) == split_actions(li, ti, m - 1).push(a));
        assert forall|j: int| 0 <= j < split_actions(li, ti, m).len() implies #[trigger] legal_for(
            split_actions(li, ti, m)[j],
            p,
        ) by {
            if j < split_actions(li, ti, m - 1).len() {
                assert(split_actions(li, ti, m)[j] == split_actions(li, ti, m - 1)[j]);
            }
        }
    }
}

proof fn lemma_seam_legal(p: ProgramView, li: usize, ti: usize, v: int)
    requires
        indexable(p),
        li < p.len(),
        ti < p[li as int].1.len(),
        p[li as int].1[ti as int].1.len() >= 3,
        p[li as int].1[ti as int].1[0] == p[li as int].1[ti as int].1.last(),
        v <= p[li as int].1[ti as int].1.len() - 1,
    ensures
        all_legal(seam_actions(li, ti, v), p),
    decreases v,
{
    if v > 0 {
        lemma_seam_legal(p, li, ti, v - 1);
        let a = Action::RelocateSeam { layer: li, toolpath: ti, vertex: (v - 1) as usize };
        assert(legal_for(a, p));
        assert(seam_actions(li, ti, v) == seam_actions(li, ti, v - 1).push(a));
        assert forall|j: int| 0 <= j < seam_actions(li, ti, v).len() implies #[trigger] legal_for(
            seam_actions(li, ti, v)[j],
            p,
        ) by {
            if j < seam_actions(li, ti, v - 1).len() {
                assert(seam_actions(li, ti, v)[j] == seam_actions(li, ti, v - 1)[j]);
            }
        }
    }
}

proof fn lemma_tps_legal(p: ProgramView, li: usize, k: int)
    requires
        indexable(p),
        li < p.len(),
        0 <= k <= p[li as int].1.len(),
    ensures
        all_legal(tps_actions(li, p[li as int].1, k), p),
    decreases k,
{
    let tps = p[li as int].1;
    if k > 0 {
        lemma_tps_legal(p, li, k - 1);
        let ti = (k - 1) as usize;
        let pts = tps[k - 1].1;
        assert(pts.len() <= usize::MAX);
        lemma_split_legal(p, li, ti, pts.len() - 1);
        let mg: Seq<Action> = if pts.len() >= 3 && has_collinear(pts) {
            seq![Action::MergeCollinear { layer: li, toolpath: ti }]
        } else {
            Seq::empty()
        };
        if pts.len() >= 3 && has_collinear(pts) {
            assert(legal_for(mg[0], p));
        }
        assert(all_legal(mg, p));
        let sm: Seq<Action> = if pts.len() >= 3 && pts[0] == pts.last() {
            seam_actions(li, ti, pts.len() - 1)
        } else {
            Seq::empty()
        };
        if pts.len() >= 3 && pts[0] == pts.last() {
            lemma_seam_legal(p, li, ti, pts.len() - 1);
        }
        assert(all_legal(sm, p));
        lemma_all_legal_concat(split_actions(li, ti, pts.len() - 1), mg, p);
        lemma_all_legal_concat(split_actions(li, ti, pts.len() - 1) + mg, sm, p);
        assert(tp_actions(li, ti, pts) == split_actions(li, ti, pts.len() - 1) + mg + sm);
        lemma_all_legal_concat(tps_actions(li, tps, k - 1), tp_actions(li, ti, pts), p);
    }
}

proof fn lemma_legal_spec_legal(p: ProgramView, k: int)
    requires
        indexable(p),
        0 <= k <= p.len(),
    ensures
        all_legal(legal_spec(p, k), p),
    decreases k,
{
    if k > 0 {
        lemma_legal_spec_legal(p, k - 1);
        let li = (k - 1) as usize;
        let tps = p[k - 1].1;
        lemma_reorder_legal(p, li, tps.len() as int);
        lemma_tps_legal(p, li, tps.len() as int);
        lemma_all_legal_concat(
            reorder_actions(li, tps.len() as int, tps.len() as int),
            tps_actions(li, tps, tps.len() as int),
            p,
        );
        lemma_all_legal_concat(legal_spec(p, k - 1), layer_actions(li, tps), p);
    }
}

proof fn lemma_merge_prefix_len(pts: Seq<Point>, k: int)
    requires
        1 <= k < pts.len(),
    ensures
        merge_prefix(pts, k).len() <= k,
        merge_prefix(pts, k).len() == k ==> merge_prefix(pts, k) == pts.take(k),
    decreases k,
{
    if k > 1 {
        lemma_merge_prefix_len(pts, k - 1);
        if merge_prefix(pts, k).len() == k {
            assert(merge_prefix(pts, k - 1).len() == k - 1);
            assert(pts.take(k - 1).push(pts[k - 1]) =~= pts.take(k));
        }
    } else {
        assert(seq![pts[0]] =~= pts.take(1));
    }
}

proof fn lemma_merge_prefix_growth(pts: Seq<Point>, m: int, k: int)
    requires
        1 <= m <= k < pts.len(),
    ensures
        merge_prefix(pts, k).len() <= merge_prefix(pts, m).len() + (k - m),
    decreases k,
{
    if k > m {
        lemma_merge_prefix_growth(pts, m, k - 1);
    }
}

/// A chain with an interior vertex collinear with its neighbours loses a vertex when merged.
proof fn lemma_merge_shrinks(pts: Seq<Point>)
    requires
        pts.len() >= 3,
        has_collinear(pts),
    ensures
        merged(pts).len() < pts.len(),
{
    let j = choose|j: int| 1 <= j < pts.len() - 1 && #[trigger] collinear(pts[j - 1], pts[j], pts[j + 1]);
    lemma_merge_prefix_len(pts, j);
    if merge_prefix(pts, j).len() == j {
        assert(merge_prefix(pts, j).last() == pts.take(j)[j - 1]);
    }
    assert(merge_prefix(pts, j + 1).len() <= j);
    lemma_merge_prefix_growth(pts, j + 1, pts.len() - 1);
}

/// Every action that `legal_actions` lists for a program applies to it without an index error: it
/// succeeds and keeps the layer count, or it is a segment split whose rounded point falls on an end
/// of the segment and is reported as not applicable. The layer it names always exists, and when it
/// succeeds and is tagged preserving by construction, the occupancy at any resolution is unchanged.
pub proof fn lemma_legal_actions_apply(p: ProgramView, i: int, res: int)
    requires
        indexable(p),
        0 <= i < legal_spec(p, p.len() as int).len(),
    ensures
        action_layer(legal_spec(p, p.len() as int)[i]) < p.len(),
        match apply_spec(legal_spec(p, p.len() as int)[i], p) {
            Ok(q) => q.len() == p.len() && (preservation_spec(legal_spec(p, p.len() as int)[i])
                == Preservation::PreservingByConstruction ==> view_occupancy(q, res) == view_occupancy(p, res)),
            Err(e) => e == TransformError::NotApplicable && legal_spec(p, p.len() as int)[i] is SplitSegment,
        },
{
    lemma_legal_spec_legal(p, p.len() as int);
    let a = legal_spec(p, p.len() as int)[i];
    assert(legal_for(a, p));
    match a {
        Action::MergeCollinear { toolpath, .. } => {
            lemma_merge_shrinks(p[action_layer(a) as int].1[toolpath as int].1);
        },
        _ => {},
    }
    if let Ok(q) = apply_spec(a, p) {
        if preservation_spec(a) == Preservation::PreservingByConstruction {
            lemma_preserving_actions(a, p, q, res);
        }
    }
}

} // verus!
