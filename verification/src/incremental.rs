//! Incremental denotation: a layer-level occupancy cache with dirty tracking.
//!
//! Denotation is per-layer: [`denote_lo`](crate::denote::denote_lo) is
//! [`denote_lo_layer`](crate::denote::denote_lo_layer) mapped over the layers. A single-layer edit
//! therefore only needs that one layer re-rasterized. [`DenoteCache`] holds one cached
//! [`LayerOccupancy`] per layer; a mutation reports which layers it touched via
//! [`DenoteCache::mark_dirty`], and [`DenoteCache::occupancy`] recomputes only the dirty ones. When
//! every changed layer was marked, the result is exactly a full [`denote_lo`] at the same resolution.
use vstd::prelude::*;

use crate::coverage::eff_res;
use crate::denote::{denote_lo, denote_lo_layer, layer_occupancy, lo_occupancy, lo_paths, LayerOccupancy, Occupancy};
use crate::ir::lo;

verus! {

/// The occupancy of one low-level layer at resolution `r`.
pub open spec fn layer_occ(l: lo::Layer, r: int) -> (i64, i64, Set<(i64, i64)>) {
    layer_occupancy(lo_paths(l.toolpaths@), l.z_um, r)
}

/// Number of `false` entries.
pub open spec fn count_clean(d: Seq<bool>) -> nat
    decreases d.len(),
{
    if d.len() == 0 {
        0
    } else {
        count_clean(d.drop_last()) + if d.last() { 0nat } else { 1nat }
    }
}

/// A per-layer occupancy cache keyed to a fixed resolution: a materialized occupancy and a
/// per-layer dirty bit.
pub struct DenoteCache {
    resolution_um: i64,
    occ: Occupancy,
    dirty: Vec<bool>,
    /// The layers the clean entries were computed from.
    source: Ghost<Seq<lo::Layer>>,
}

impl DenoteCache {
    /// The cache is consistent: one entry and one dirty bit per cached layer, and every clean
    /// entry is the occupancy of the layer it was computed from.
    pub closed spec fn wf(&self) -> bool {
        &&& self.resolution_um >= 1
        &&& self.occ.layers@.len() == self.dirty@.len()
        &&& self.source@.len() == self.dirty@.len()
        &&& forall|i: int|
            0 <= i < self.dirty@.len() && !self.dirty@[i] ==> (#[trigger] self.occ.layers@[i])@ == layer_occ(
                self.source@[i],
                self.resolution_um as int,
            )
    }

    /// The resolution the cache is keyed to.
    pub closed spec fn spec_resolution(&self) -> int {
        self.resolution_um as int
    }

    /// Number of cached layers.
    pub closed spec fn cached_layers(&self) -> nat {
        self.dirty@.len()
    }

    /// Whether layer `i` is cached and clean.
    pub closed spec fn is_clean(&self, i: int) -> bool {
        0 <= i < self.dirty@.len() && !self.dirty@[i]
    }

    /// The layer a clean entry was computed from.
    pub closed spec fn source_layer(&self, i: int) -> lo::Layer {
        self.source@[i]
    }

    /// Number of clean layers.
    pub closed spec fn spec_clean_layers(&self) -> nat {
        count_clean(self.dirty@)
    }

    /// A cache for the given raster resolution (below one micron taken as one). Empty until the
    /// first [`DenoteCache::occupancy`].
    pub fn new(resolution_um: i64) -> (c: DenoteCache)
        ensures
            c.wf(),
            c.spec_resolution() == eff_res(resolution_um as int),
            c.cached_layers() == 0,
    {
        DenoteCache {
            resolution_um: if resolution_um < 1 { 1 } else { resolution_um },
            occ: Occupancy { layers: Vec::new() },
            dirty: Vec::new(),
            source: Ghost(Seq::empty()),
        }
    }

    /// The resolution (microns) this cache is keyed to.
    pub fn resolution_um(&self) -> (r: i64)
        ensures
            r == self.spec_resolution(),
    {
        self.resolution_um
    }

    /// Number of cached layers currently clean (not awaiting recompute).
    pub fn clean_layers(&self) -> (n: usize)
        ensures
            n == self.spec_clean_layers(),
    {
        let mut n: usize = 0;
        let mut k: usize = 0;
        while k < self.dirty.len()
            invariant
                k <= self.dirty.len(),
                n == count_clean(self.dirty@.take(k as int)),
                n <= k,
            decreases self.dirty.len() - k,
        {
            proof {
                assert(self.dirty@.take(k + 1).drop_last() =~= self.dirty@.take(k as int));
            }
            if !self.dirty[k] {
                n += 1;
            }
            k += 1;
        }
        assert(self.dirty@.take(k as int) =~= self.dirty@);
        n
    }

    /// Mark one layer dirty, so it is recomputed on the next [`DenoteCache::occupancy`]. An index
    /// past the cached layers is ignored.
    pub fn mark_dirty(&mut self, layer_idx: usize)
        requires
            old(self).wf(),
        ensures
            final(self).wf(),
            final(self).spec_resolution() == old(self).spec_resolution(),
            final(self).cached_layers() == old(self).cached_layers(),
            forall|i: int| #[trigger] final(self).is_clean(i) <==> old(self).is_clean(i) && i != layer_idx,
            forall|i: int| final(self).is_clean(i) ==> #[trigger] final(self).source_layer(i) == old(self).source_layer(i),
    {
        if layer_idx < self.dirty.len() {
            self.dirty.set(layer_idx, true);
        }
    }

    /// Mark every layer dirty (a full recompute next call).
    pub fn mark_all_dirty(&mut self)
        requires
            old(self).wf(),
        ensures
            final(self).wf(),
            final(self).spec_resolution() == old(self).spec_resolution(),
            final(self).cached_layers() == old(self).cached_layers(),
            forall|i: int| !#[trigger] final(self).is_clean(i),
    {
        let mut k: usize = 0;
        while k < self.dirty.len()
            invariant
                k <= self.dirty.len(),
                self.wf(),
                self.spec_resolution() == old(self).spec_resolution(),
                self.cached_layers() == old(self).cached_layers(),
                forall|i: int| 0 <= i < k ==> self.dirty@[i],
            decreases self.dirty.len() - k,
        {
            self.dirty.set(k, true);
            k += 1;
        }
    }

    /// The program's occupancy, recomputing only the dirty layers, returned by reference.
    ///
    /// If the program's layer count changed since the last call every layer is recomputed;
    /// otherwise a dirty layer is recomputed from the program and a clean one is kept as cached.
    /// So when every layer that changed was marked dirty, the result is exactly
    /// [`denote_lo`](crate::denote::denote_lo) of the program at this resolution. Afterwards every
    /// layer is clean and cached from this program.
    pub fn occupancy(&mut self, program: &lo::Program) -> (r: &Occupancy)
        requires
            old(self).wf(),
        ensures
            final(self).wf(),
            final(self).spec_resolution() == old(self).spec_resolution(),
            r@.len() == program.layers@.len(),
            forall|i: int|
                0 <= i < program.layers@.len() ==> #[trigger] r@[i] == layer_occ(
                    if old(self).cached_layers() != program.layers@.len() || !old(self).is_clean(i) {
                        program.layers@[i]
                    } else {
                        old(self).source_layer(i)
                    },
                    old(self).spec_resolution(),
                ),
            (forall|i: int| #[trigger] old(self).is_clean(i) ==> old(self).source_layer(i) == program.layers@[i])
                ==> r@ == lo_occupancy(program.layers@, old(self).spec_resolution()),
            final(self).cached_layers() == program.layers@.len(),
            forall|i: int|
                0 <= i < program.layers@.len() ==> #[trigger] final(self).is_clean(i) && final(self).source_layer(i) == (
                if old(self).cached_layers() != program.layers@.len() || !old(self).is_clean(i) {
                    program.layers@[i]
                } else {
                    old(self).source_layer(i)
                }),
            final(self).spec_clean_layers() == program.layers@.len(),
    {
        let r = self.resolution_um;
        let n = program.layers.len();
        if self.occ.layers.len() != n {
            self.occ = denote_lo(program, r);
            self.dirty = vec![false; n];
            self.source = Ghost(program.layers@);
            proof {
                assert(self.occ@.len() == n);
                assert(self.occ.layers@.len() == n);
                assert forall|i: int| 0 <= i < self.dirty@.len() && !self.dirty@[i] implies (#[trigger] self.occ.layers@[i])@
                    == layer_occ(self.source@[i], self.resolution_um as int) by {
                    assert(self.occ@[i] == self.occ.layers@[i]@);
                    assert(self.occ@[i] == lo_occupancy(program.layers@, r as int)[i]);
                }
                lemma_all_clean(self.dirty@);
            }
            proof {
                assert forall|i: int| 0 <= i < program.layers@.len() implies #[trigger] self.occ@[i] == layer_occ(
                    program.layers@[i],
                    r as int,
                ) by {}
                assert(self.occ@ =~= lo_occupancy(program.layers@, r as int));
            }
            return &self.occ;
        }
        let ghost old_source = self.source@;
        let ghost old_dirty = self.dirty@;
        let ghost old_occ = self.occ@;
        let ghost mut new_src = old_source;
        let mut i: usize = 0;
        while i < n
            invariant
                i <= n,
                n == program.layers@.len(),
                r == self.resolution_um,
                r >= 1,
                self.occ.layers@.len() == n,
                self.dirty@.len() == n,
                old_dirty.len() == n,
                old_source.len() == n,
                old_occ.len() == n,
                new_src.len() == n,
                self.source@ == old_source,
                forall|t: int| 0 <= t < i ==> !self.dirty@[t],
                forall|t: int| i <= t < n ==> self.dirty@[t] == old_dirty[t],
                forall|t: int|
                    0 <= t < n ==> #[trigger] new_src[t] == (if t < i && old_dirty[t] {
                        program.layers@[t]
                    } else {
                        old_source[t]
                    }),
                forall|t: int|
                    0 <= t < n && !old_dirty[t] ==> (#[trigger] old_occ[t]) == layer_occ(old_source[t], r as int),
                forall|t: int|
                    0 <= t < n ==> (#[trigger] self.occ.layers@[t])@ == (if t < i && old_dirty[t] {
                        layer_occ(program.layers@[t], r as int)
                    } else {
                        old_occ[t]
                    }),
            decreases n - i,
        {
            if self.dirty[i] {
                let l = denote_lo_layer(&program.layers[i], r);
                self.occ.layers.set(i, l);
                self.dirty.set(i, false);
                proof {
                    let ghost prev = new_src;
                    new_src = new_src.update(i as int, program.layers@[i as int]);
                    assert forall|t: int| 0 <= t < n implies #[trigger] new_src[t] == (if t < i + 1 && old_dirty[t] {
                        program.layers@[t]
                    } else {
                        old_source[t]
                    }) by {
                        if t != i {
                            assert(new_src[t] == prev[t]);
                        }
                    }
                }
            }
            i += 1;
        }
        self.source = Ghost(new_src);
        proof {
            assert forall|t: int| 0 <= t < self.dirty@.len() && !self.dirty@[t] implies (#[trigger] self.occ.layers@[t])@
                == layer_occ(self.source@[t], self.resolution_um as int) by {}
            assert forall|t: int| 0 <= t < n implies #[trigger] self.occ@[t] == layer_occ(
                if !(0 <= t < old_dirty.len() && !old_dirty[t]) {
                    program.layers@[t]
                } else {
                    old_source[t]
                },
                r as int,
            ) by {
                assert(self.occ@[t] == self.occ.layers@[t]@);
            }
            if forall|t: int| #[trigger] old(self).is_clean(t) ==> old(self).source_layer(t) == program.layers@[t] {
                assert forall|t: int| 0 <= t < n implies #[trigger] self.occ@[t] == lo_occupancy(program.layers@, r as int)[t] by {
                    assert(self.occ@[t] == self.occ.layers@[t]@);
                    if !old_dirty[t] {
                        assert(old(self).is_clean(t));
                        assert(old_source[t] == program.layers@[t]);
                    }
                }
                assert(self.occ@ =~= lo_occupancy(program.layers@, r as int));
            }
            lemma_all_clean(self.dirty@);
        }
        &self.occ
    }

    /// The program's occupancy as an owned value (a copy of [`DenoteCache::occupancy`]), for
    /// keeping past the next edit.
    pub fn occupancy_cloned(&mut self, program: &lo::Program) -> (o: Occupancy)
        requires
            old(self).wf(),
        ensures
            final(self).wf(),
            final(self).spec_resolution() == old(self).spec_resolution(),
            (forall|i: int| #[trigger] old(self).is_clean(i) ==> old(self).source_layer(i) == program.layers@[i])
                ==> o@ == lo_occupancy(program.layers@, old(self).spec_resolution()),
            o@.len() == program.layers@.len(),
    {
        let r = self.occupancy(program);
        r.duplicate()
    }
}

proof fn lemma_all_clean(d: Seq<bool>)
    requires
        forall|t: int| 0 <= t < d.len() ==> !d[t],
    ensures
        count_clean(d) == d.len(),
    decreases d.len(),
{
    if d.len() > 0 {
        lemma_all_clean(d.drop_last());
    }
}

} // verus!
