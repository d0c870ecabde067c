//! Pass policy: a pass is a pure transform of the low-level move plan (value-in, value-out).
//!
//! Every pass must preserve denotation (`denote_lo(p) == denote_lo(run(p))`);
//! [`preserves_denotation`] checks that obligation with the oracle.
pub mod travel_order;

pub use travel_order::TravelOrder;

use vstd::prelude::*;

use crate::denote::{
    denote_lo, denote_lo_deposit, deposit_eq, lemma_lo_occupancy_view, occupancy_eq, view_deposit,
    view_occupancy,
};
use crate::ir::lo::{self, ToolpathView};

verus! {

/// A transform over the low-level move plan that should preserve denotation.
pub trait Pass {
    /// The move plan this pass turns `p` into.
    spec fn spec_run(&self, p: Seq<(i64, Seq<ToolpathView>)>) -> Seq<(i64, Seq<ToolpathView>)>;

    fn name(&self) -> &'static str;

    /// Transform a program into an equivalent one.
    fn run(&self, program: lo::Program) -> (out: lo::Program)
        ensures
            out@ == self.spec_run(program@),
    ;
}

} // verus!

verus! {

/// Does `pass` preserve the program's denotation at this resolution?
pub fn preserves_denotation<P: Pass>(pass: &P, program: &lo::Program, resolution_um: i64) -> (r: bool)
    ensures
        r == (view_occupancy(program@, resolution_um as int) == view_occupancy(
            pass.spec_run(program@),
            resolution_um as int,
        )),
{
    let before = denote_lo(program, resolution_um);
    let out = pass.run(program.duplicate());
    let after = denote_lo(&out, resolution_um);
    proof {
        lemma_lo_occupancy_view(*program, resolution_um as int);
        lemma_lo_occupancy_view(out, resolution_um as int);
    }
    occupancy_eq(&before, &after)
}

/// Every layer of a move plan has at most `u32::MAX` toolpaths, so per-cell path counts fit.
pub open spec fn counts_fit(p: Seq<(i64, Seq<ToolpathView>)>) -> bool {
    forall|i: int| 0 <= i < p.len() ==> #[trigger] p[i].1.len() <= u32::MAX
}

fn layers_fit(program: &lo::Program) -> (r: bool)
    ensures
        r == counts_fit(program@),
        r ==> forall|i: int| 0 <= i < program.layers@.len() ==> #[trigger] program.layers@[i].toolpaths@.len() <= u32::MAX,
{
    let mut k: usize = 0;
    while k < program.layers.len()
        invariant
            k <= program.layers.len(),
            forall|i: int| 0 <= i < k ==> #[trigger] program.layers@[i].toolpaths@.len() <= u32::MAX,
        decreases program.layers.len() - k,
    {
        if program.layers[k].toolpaths.len() > 4294967295 {
            assert(program@[k as int].1.len() == program.layers@[k as int].toolpaths@.len());
            return false;
        }
        k += 1;
    }
    assert forall|i: int| 0 <= i < program@.len() implies #[trigger] program@[i].1.len() <= u32::MAX by {
        assert(program@[i].1.len() == program.layers@[i].toolpaths@.len());
    }
    true
}

/// Does `pass` preserve the per-cell count of distinct extruding paths? Stricter than
/// [`preserves_denotation`]: it rejects whole-path duplication or repetition (e.g. laying a path
/// down twice), which set-equality cannot see. A pure reorder/reverse pass like [`TravelOrder`]
/// preserves it. It counts paths, not filament, and is the intended obligation only for passes
/// that neither split nor merge paths. A plan with more than `u32::MAX` toolpaths in a layer has
/// no countable deposit, and is reported as not preserved.
pub fn preserves_deposit<P: Pass>(pass: &P, program: &lo::Program, resolution_um: i64) -> (r: bool)
    ensures
        r == (counts_fit(program@) && counts_fit(pass.spec_run(program@)) && view_deposit(
            program@,
            resolution_um as int,
        ) == view_deposit(pass.spec_run(program@), resolution_um as int)),
{
    let out = pass.run(program.duplicate());
    if !layers_fit(program) || !layers_fit(&out) {
        return false;
    }
    let before = denote_lo_deposit(program, resolution_um);
    let after = denote_lo_deposit(&out, resolution_um);
    proof {
        lemma_lo_occupancy_view(*program, resolution_um as int);
        lemma_lo_occupancy_view(out, resolution_um as int);
    }
    deposit_eq(&before, &after)
}

/// The identity pass; trivially denotation-preserving.
pub struct Identity;

impl Pass for Identity {
    open spec fn spec_run(&self, p: Seq<(i64, Seq<ToolpathView>)>) -> Seq<(i64, Seq<ToolpathView>)> {
        p
    }

    fn name(&self) -> (s: &'static str)
        ensures
            s@ == "identity"@,
    {
        "identity"
    }

    fn run(&self, program: lo::Program) -> (out: lo::Program) {
        program
    }
}

} // verus!
