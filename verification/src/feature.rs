//! Featurization: a dense per-layer 0/1 occupancy raster, cropped to the occupied bounding box,
//! ready to become an array for learned models and analytics.
use vstd::prelude::*;

use crate::coverage::eff_res;
use crate::denote::{denote_lo_layer, layer_occupancy, lo_paths};
use crate::ir::lo;
use crate::raster::cell_list;

verus! {

/// A dense 0/1 occupancy raster for one layer, cropped to the occupied cells' bounding box.
/// `data` is row-major, `rows * cols` bytes; cell `(i, j)` is at
/// `data[(j - min_j) * cols + (i - min_i)]`.
#[derive(Clone, Debug, PartialEq, Eq)]
pub struct DenseLayer {
    pub z_um: i64,
    pub resolution_um: i64,
    pub min_i: i64,
    pub min_j: i64,
    pub rows: usize,
    pub cols: usize,
    pub data: Vec<u8>,
}

/// `g` is the dense raster of the cells `s` of a layer at `z`, resolution `r`.
pub open spec fn is_dense_layer(g: DenseLayer, z: i64, r: int, s: Set<(i64, i64)>) -> bool {
    &&& g.z_um == z
    &&& g.resolution_um == r
    &&& if s.is_empty() {
        g.min_i == 0 && g.min_j == 0 && g.rows == 0 && g.cols == 0 && g.data@.len() == 0
    } else {
        &&& g.cols >= 1 && g.rows >= 1
        &&& forall|c: (i64, i64)| #[trigger] s.contains(c) ==> g.min_i <= c.0 < g.min_i + g.cols && g.min_j <= c.1 < g.min_j + g.rows
        &&& exists|c: (i64, i64)| #[trigger] s.contains(c) && c.0 == g.min_i
        &&& exists|c: (i64, i64)| #[trigger] s.contains(c) && c.0 == g.min_i + g.cols - 1
        &&& exists|c: (i64, i64)| #[trigger] s.contains(c) && c.1 == g.min_j
        &&& exists|c: (i64, i64)| #[trigger] s.contains(c) && c.1 == g.min_j + g.rows - 1
        &&& g.data@.len() == g.rows * g.cols
        &&& forall|idx: int|
            0 <= idx < g.data@.len() ==> #[trigger] g.data@[idx] == if s.contains(
                ((g.min_i + idx % (g.cols as int)) as i64, (g.min_j + idx / (g.cols as int)) as i64),
            ) {
                1u8
            } else {
                0u8
            }
    }
}

/// Every layer's occupied bounding box has at most `usize::MAX` cells.
pub open spec fn grid_fits(s: Set<(i64, i64)>) -> bool {
    forall|a: (i64, i64), b: (i64, i64), c: (i64, i64), d: (i64, i64)|
        #![trigger s.contains(a), s.contains(b), s.contains(c), s.contains(d)]
        s.contains(a) && s.contains(b) && s.contains(c) && s.contains(d) && a.0 <= b.0 && c.1 <= d.1 ==> (b.0 - a.0
            + 1) * (d.1 - c.1 + 1) <= usize::MAX
}

proof fn lemma_index(i: int, j: int, cols: int, rows: int)
    requires
        0 <= i < cols,
        0 <= j < rows,
    ensures
        0 <= j * cols + i < rows * cols,
        (j * cols + i) % cols == i,
        (j * cols + i) / cols == j,
{
    assert(0 <= j * cols + i < rows * cols) by (nonlinear_arith)
        requires
            0 <= i < cols,
            0 <= j < rows,
    ;
    vstd::arithmetic::div_mod::lemma_fundamental_div_mod_converse(j * cols + i, cols, j, i);
}

proof fn lemma_decode(x: int, cols: int, rows: int)
    requires
        cols >= 1,
        0 <= x < rows * cols,
    ensures
        0 <= x % cols < cols,
        0 <= x / cols < rows,
        x == (x / cols) * cols + x % cols,
{
    vstd::arithmetic::div_mod::lemma_fundamental_div_mod(x, cols);
    vstd::arithmetic::div_mod::lemma_mod_bound(x, cols);
    let q = x / cols;
    let rm = x % cols;
    assert(x == q * cols + rm) by (nonlinear_arith)
        requires
            x == cols * q + rm,
    ;
    assert(0 <= q < rows) by (nonlinear_arith)
        requires
            x == q * cols + rm,
            0 <= rm < cols,
            0 <= x < rows * cols,
            cols >= 1,
    ;
}

/// One layer's dense raster.
fn dense_layer(layer: &lo::Layer, r: i64) -> (g: DenseLayer)
    requires
        r >= 1,
        grid_fits(layer_occupancy(lo_paths(layer.toolpaths@), layer.z_um, r as int).2),
    ensures
        is_dense_layer(g, layer.z_um, r as int, layer_occupancy(lo_paths(layer.toolpaths@), layer.z_um, r as int).2),
{
    let occ = denote_lo_layer(layer, r);
    let ghost s = occ.cells@;
    let list = cell_list(&occ.cells);
    if list.len() == 0 {
        assert(s =~= Set::<(i64, i64)>::empty()) by {
            assert forall|c: (i64, i64)| !s.contains(c) by {
                if s.contains(c) {
                    assert(list@.to_set().contains(c));
                    assert(list@.contains(c));
                }
            }
        }
        return DenseLayer { z_um: layer.z_um, resolution_um: r, min_i: 0, min_j: 0, rows: 0, cols: 0, data: Vec::new() };
    }
    let mut min_i = list[0].0;
    let mut max_i = list[0].0;
    let mut min_j = list[0].1;
    let mut max_j = list[0].1;
    let ghost (mut ai, mut bi, mut aj, mut bj) = (list@[0], list@[0], list@[0], list@[0]);
    let mut k: usize = 1;
    while k < list.len()
        invariant
            1 <= k <= list.len(),
            list@.to_set() == s,
            s.contains(ai) && ai.0 == min_i,
            s.contains(bi) && bi.0 == max_i,
            s.contains(aj) && aj.1 == min_j,
            s.contains(bj) && bj.1 == max_j,
            forall|t: int| 0 <= t < k ==> min_i <= #[trigger] list@[t].0 <= max_i && min_j <= list@[t].1 <= max_j,
        decreases list.len() - k,
    {
        let c = list[k];
        proof {
            assert(list@.contains(c));
        }
        if c.0 < min_i {
            min_i = c.0;
            proof { ai = c; }
        }
        if c.0 > max_i {
            max_i = c.0;
            proof { bi = c; }
        }
        if c.1 < min_j {
            min_j = c.1;
            proof { aj = c; }
        }
        if c.1 > max_j {
            max_j = c.1;
            proof { bj = c; }
        }
        k += 1;
    }
    proof {
        assert forall|c: (i64, i64)| #[trigger] s.contains(c) implies min_i <= c.0 <= max_i && min_j <= c.1 <= max_j by {
            assert(list@.to_set().contains(c));
            assert(list@.contains(c));
            let t = choose|t: int| 0 <= t < list@.len() && list@[t] == c;
        }
        assert(s.contains(ai) && s.contains(bi) && s.contains(aj) && s.contains(bj));
        assert((bi.0 - ai.0 + 1) * (bj.1 - aj.1 + 1) <= usize::MAX);
        assert((max_i - min_i + 1) * (max_j - min_j + 1) >= 1) by (nonlinear_arith)
            requires
                max_i >= min_i,
                max_j >= min_j,
        ;
        assert(max_i - min_i + 1 <= (max_i - min_i + 1) * (max_j - min_j + 1)) by (nonlinear_arith)
            requires
                max_i >= min_i,
                max_j >= min_j,
        ;
        assert(max_j - min_j + 1 <= (max_i - min_i + 1) * (max_j - min_j + 1)) by (nonlinear_arith)
            requires
                max_i >= min_i,
                max_j >= min_j,
        ;
    }
    let cols: usize = (max_i as i128 - min_i as i128 + 1) as usize;
    let rows: usize = (max_j as i128 - min_j as i128 + 1) as usize;
    assert(rows * cols == (max_i - min_i + 1) * (max_j - min_j + 1)) by (nonlinear_arith)
        requires
            cols == max_i - min_i + 1,
            rows == max_j - min_j + 1,
    ;
    let total: usize = rows * cols;
    let mut data: Vec<u8> = Vec::new();
    let mut n: usize = 0;
    while n < total
        invariant
            n <= total,
            data@.len() == n,
            forall|t: int| 0 <= t < n ==> #[trigger] data@[t] == 0u8,
        decreases total - n,
    {
        data.push(0u8);
        n += 1;
    }
    let ghost filled = |idx: int| s.contains(((min_i + idx % (cols as int)) as i64, (min_j + idx / (cols as int)) as i64));
    let mut m: usize = 0;
    while m < list.len()
        invariant
            m <= list.len(),
            list@.to_set() == s,
            cols >= 1 && rows >= 1,
            total == rows * cols,
            cols == max_i - min_i + 1,
            rows == max_j - min_j + 1,
            data@.len() == total,
            forall|c: (i64, i64)| #[trigger] s.contains(c) ==> min_i <= c.0 <= max_i && min_j <= c.1 <= max_j,
            forall|idx: int|
                0 <= idx < total ==> #[trigger] data@[idx] == if exists|t: int|
                    0 <= t < m && list@[t] == ((min_i + idx % (cols as int)) as i64, (min_j + idx / (cols as int)) as i64) {
                    1u8
                } else {
                    0u8
                },
        decreases list.len() - m,
    {
        let c = list[m];
        proof {
            assert(list@.contains(c));
            assert(s.contains(c));
            lemma_index(c.0 - min_i, c.1 - min_j, cols as int, rows as int);
        }
        let idx: usize = ((c.1 as i128 - min_j as i128) as usize) * cols + ((c.0 as i128 - min_i as i128) as usize);
        let ghost before = data@;
        data.set(idx, 1u8);
        proof {
            assert forall|x: int| 0 <= x < total implies #[trigger] data@[x] == if exists|t: int|
                0 <= t < m + 1 && list@[t] == ((min_i + x % (cols as int)) as i64, (min_j + x / (cols as int)) as i64) {
                1u8
            } else {
                0u8
            } by {
                let cx = ((min_i + x % (cols as int)) as i64, (min_j + x / (cols as int)) as i64);
                if x == idx {
                    assert(list@[m as int] == cx);
                } else {
                    if list@[m as int] == cx {
                        lemma_decode(x, cols as int, rows as int);
                        assert(c.0 - min_i == x % (cols as int));
                        assert(c.1 - min_j == x / (cols as int));
                        assert(false);
                    }
                    if exists|t: int| 0 <= t < m + 1 && list@[t] == cx {
                        let t = choose|t: int| 0 <= t < m + 1 && list@[t] == cx;
                        assert(t < m);
                    }
                }
            }
        }
        m += 1;
    }
    proof {
        assert forall|idx: int| 0 <= idx < total implies #[trigger] data@[idx] == if s.contains(
            ((min_i + idx % (cols as int)) as i64, (min_j + idx / (cols as int)) as i64),
        ) {
            1u8
        } else {
            0u8
        } by {
            let cx = ((min_i + idx % (cols as int)) as i64, (min_j + idx / (cols as int)) as i64);
            if s.contains(cx) {
                assert(list@.to_set().contains(cx));
                assert(list@.contains(cx));
                let t = choose|t: int| 0 <= t < list@.len() && list@[t] == cx;
            }
            if exists|t: int| 0 <= t < m && list@[t] == cx {
                let t = choose|t: int| 0 <= t < m && list@[t] == cx;
                assert(list@.contains(cx));
            }
        }
    }
    DenseLayer { z_um: layer.z_um, resolution_um: r, min_i, min_j, rows, cols, data }
}

/// A dense occupancy raster per layer (empty layers yield a 0×0 grid).
pub fn occupancy_grid(program: &lo::Program, resolution_um: i64) -> (grids: Vec<DenseLayer>)
    requires
        forall|l: int|
            0 <= l < program.layers@.len() ==> grid_fits(
                #[trigger] layer_occupancy(lo_paths(program.layers@[l].toolpaths@), program.layers@[l].z_um, eff_res(resolution_um as int)).2,
            ),
    ensures
        grids@.len() == program.layers@.len(),
        forall|l: int|
            0 <= l < grids@.len() ==> #[trigger] is_dense_layer(
                grids@[l],
                program.layers@[l].z_um,
                eff_res(resolution_um as int),
                layer_occupancy(lo_paths(program.layers@[l].toolpaths@), program.layers@[l].z_um, eff_res(resolution_um as int)).2,
            ),
{
    let r: i64 = if resolution_um < 1 { 1 } else { resolution_um };
    assert(r as int == eff_res(resolution_um as int));
    let mut grids: Vec<DenseLayer> = Vec::new();
    let mut l: usize = 0;
    while l < program.layers.len()
        invariant
            l <= program.layers.len(),
            r == eff_res(resolution_um as int),
            forall|l: int|
                0 <= l < program.layers@.len() ==> grid_fits(
                    #[trigger] layer_occupancy(lo_paths(program.layers@[l].toolpaths@), program.layers@[l].z_um, r as int).2,
                ),
            grids@.len() == l,
            forall|t: int|
                0 <= t < l ==> #[trigger] is_dense_layer(
                    grids@[t],
                    program.layers@[t].z_um,
                    r as int,
                    layer_occupancy(lo_paths(program.layers@[t].toolpaths@), program.layers@[t].z_um, r as int).2,
                ),
        decreases program.layers.len() - l,
    {
        let g = dense_layer(&program.layers[l], r);
        grids.push(g);
        l += 1;
    }
    grids
}

} // verus!
