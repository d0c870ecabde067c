//! Render deposited-material occupancy to PNG.
//!
//! Diff colours: grey = in both, red = only in A, blue = only in B, white = empty. The image spans
//! the bounding box of the cells, one pixel per cell up to `max_px` in each dimension (cells are
//! scaled down past that), with +y up. Cells are painted in lexicographic order, so where several
//! cells share a pixel the greatest one shows.
use std::collections::BTreeSet;

use vstd::prelude::*;
use vstd::string::StringSliceAdditionalSpecFns;

use crate::denote::{denote_lo, Occupancy};
use crate::frontend::gcode::parse;
use crate::raster::{cell_list, ordered_cells, sorted_enum};

verus! {

/// The eight bytes every PNG file begins with.
pub open spec fn png_signature() -> Seq<u8> {
    seq![137u8, 80u8, 78u8, 71u8, 13u8, 10u8, 26u8, 10u8]
}

/// The PNG file the `png` crate writes for an 8-bit RGB image of the given size and row-major
/// pixel bytes.
pub uninterp spec fn rgb_png(width: u32, height: u32, rgb: Seq<u8>) -> Seq<u8>;

/// Encode an 8-bit RGB image as PNG.
///
/// Calls `png::Encoder::new` on a byte buffer, sets `ColorType::Rgb` and `BitDepth::Eight`, then
/// `write_header` and `write_image_data`. Claimed: the bytes are a function of the size and the
/// pixels alone, and begin with the PNG signature (`write_header` writes it first). Both calls
/// succeed for a non-empty image whose pixel buffer holds exactly three bytes per pixel, written
/// to memory.
#[verifier::external_body]
fn encode_rgb(width: u32, height: u32, rgb: &Vec<u8>) -> (r: Vec<u8>)
    requires
        width >= 1,
        height >= 1,
        rgb@.len() == width * height * 3,
    ensures
        r@ == rgb_png(width, height, rgb@),
        r@.len() >= 8,
        r@.take(8) == png_signature(),
{
    let mut buf = Vec::new();
    {
        let mut enc = png::Encoder::new(&mut buf, width, height);
        enc.set_color(png::ColorType::Rgb);
        enc.set_depth(png::BitDepth::Eight);
        let mut writer = enc.write_header().expect("png header");
        writer.write_image_data(rgb.as_slice()).expect("png data");
    }
    buf
}

/// The colour of a cell present in A (`in_a`) and/or B (`in_b`).
pub open spec fn cell_color(in_a: bool, in_b: bool) -> (u8, u8, u8) {
    if in_a && in_b {
        (160, 160, 160)
    } else if in_a {
        (220, 40, 40)
    } else {
        (40, 80, 220)
    }
}

/// The bounding box `(min x, max x, min y, max y)` of a non-empty cell sequence.
pub open spec fn bbox(q: Seq<(i64, i64)>) -> (i64, i64, i64, i64)
    decreases q.len(),
{
    if q.len() <= 1 {
        (q[0].0, q[0].0, q[0].1, q[0].1)
    } else {
        let (a, b, c, d) = bbox(q.drop_last());
        let p = q.last();
        (
            if p.0 < a { p.0 } else { a },
            if p.0 > b { p.0 } else { b },
            if p.1 < c { p.1 } else { c },
            if p.1 > d { p.1 } else { d },
        )
    }
}

/// A cell offset in `[0, span)` mapped to a pixel in `[0, px)`.
pub open spec fn scale(offset: int, span: int, px: int) -> int {
    if px <= 1 || span <= 1 {
        0
    } else {
        offset * (px - 1) / (span - 1)
    }
}

/// Image size along one axis: the cell span, capped at `max_px`.
pub open spec fn side(span: int, max_px: int) -> int {
    if span > max_px {
        max_px
    } else {
        span
    }
}

/// The layout of a diff image of the (non-empty, sorted) cells `q`:
/// `(min x, min y, cells wide, cells high, width, height)`.
pub open spec fn layout(q: Seq<(i64, i64)>, max_px: int) -> (int, int, int, int, int, int) {
    let (minx, maxx, miny, maxy) = bbox(q);
    let cw = maxx - minx + 1;
    let ch = maxy - miny + 1;
    (minx as int, miny as int, cw, ch, side(cw, max_px), side(ch, max_px))
}

/// Byte offset of the pixel a cell lands on.
pub open spec fn pixel_index(c: (i64, i64), lay: (int, int, int, int, int, int)) -> int {
    let (minx, miny, cw, ch, w, h) = lay;
    let px = scale(c.0 - minx, cw, w);
    let py = h - 1 - scale(c.1 - miny, ch, h);
    (py * w + px) * 3
}

/// The pixels after painting the cells of `q` in order onto a white canvas.
pub open spec fn paint(q: Seq<(i64, i64)>, a: Set<(i64, i64)>, b: Set<(i64, i64)>, lay: (int, int, int, int, int, int)) -> Seq<u8>
    decreases q.len(),
{
    if q.len() == 0 {
        Seq::new((lay.4 * lay.5 * 3) as nat, |i: int| 255u8)
    } else {
        let prev = paint(q.drop_last(), a, b, lay);
        let c = q.last();
        let idx = pixel_index(c, lay);
        let col = cell_color(a.contains(c), b.contains(c));
        prev.update(idx, col.0).update(idx + 1, col.1).update(idx + 2, col.2)
    }
}

/// The diff image of two cell sets: `(width, height, rgb)`. A single white pixel when both are
/// empty.
pub open spec fn diff_image_spec(a: Set<(i64, i64)>, b: Set<(i64, i64)>, max_px: int) -> (int, int, Seq<u8>) {
    let q = ordered_cells(a.union(b));
    if q.len() == 0 {
        (1, 1, seq![255u8, 255u8, 255u8])
    } else {
        let lay = layout(q, max_px);
        (lay.4, lay.5, paint(q, a, b, lay))
    }
}

/// The diff PNG of two cell sets.
pub open spec fn diff_png_spec(a: Set<(i64, i64)>, b: Set<(i64, i64)>, max_px: int) -> Seq<u8> {
    let (w, h, rgb) = diff_image_spec(a, b, max_px);
    rgb_png(w as u32, h as u32, rgb)
}

proof fn lemma_bbox(q: Seq<(i64, i64)>)
    requires
        q.len() >= 1,
    ensures
        ({
            let (minx, maxx, miny, maxy) = bbox(q);
            &&& minx <= maxx
            &&& miny <= maxy
            &&& forall|k: int| 0 <= k < q.len() ==> minx <= (#[trigger] q[k]).0 <= maxx && miny <= q[k].1 <= maxy
        }),
    decreases q.len(),
{
    if q.len() > 1 {
        lemma_bbox(q.drop_last());
        let (minx, maxx, miny, maxy) = bbox(q);
        assert forall|k: int| 0 <= k < q.len() implies minx <= (#[trigger] q[k]).0 <= maxx && miny <= q[k].1 <= maxy by {
            if k < q.len() - 1 {
                assert(q.drop_last()[k] == q[k]);
            }
        }
    }
}

proof fn lemma_scale(offset: int, span: int, px: int)
    requires
        0 <= offset < span,
        1 <= px,
    ensures
        0 <= scale(offset, span, px) < px,
{
    if !(px <= 1 || span <= 1) {
        assert(0 <= offset * (px - 1) / (span - 1) <= px - 1) by (nonlinear_arith)
            requires
                0 <= offset <= span - 1,
                span >= 2,
                px >= 2,
        ;
    }
}

proof fn lemma_index(c: (i64, i64), lay: (int, int, int, int, int, int))
    requires
        ({
            let (minx, miny, cw, ch, w, h) = lay;
            &&& 0 <= c.0 - minx < cw
            &&& 0 <= c.1 - miny < ch
            &&& 1 <= w
            &&& 1 <= h
        }),
    ensures
        0 <= pixel_index(c, lay),
        pixel_index(c, lay) + 2 < lay.4 * lay.5 * 3,
{
    let (minx, miny, cw, ch, w, h) = lay;
    lemma_scale(c.0 - minx, cw, w);
    lemma_scale(c.1 - miny, ch, h);
    let px = scale(c.0 - minx, cw, w);
    let py = h - 1 - scale(c.1 - miny, ch, h);
    assert(0 <= (py * w + px) * 3 && (py * w + px) * 3 + 2 < w * h * 3) by (nonlinear_arith)
        requires
            0 <= px < w,
            0 <= py < h,
    ;
}

/// Map a cell offset in `[0, span)` to a pixel in `[0, px)`.
fn scale_exec(offset: u128, span: u128, px: u128) -> (r: u128)
    requires
        offset < span <= 0x1_0000_0000_0000_0000,
        1 <= px <= 0xFFFF_FFFF,
    ensures
        r == scale(offset as int, span as int, px as int),
        r < px,
{
    proof {
        lemma_scale(offset as int, span as int, px as int);
    }
    if px <= 1 || span <= 1 {
        0
    } else {
        assert(offset * (px - 1) <= 0x1_0000_0000_0000_0000 * 0xFFFF_FFFF) by (nonlinear_arith)
            requires
                offset <= 0x1_0000_0000_0000_0000,
                px - 1 <= 0xFFFF_FFFF,
        ;
        offset * (px - 1) / (span - 1)
    }
}

/// The diff image of two cell sets: `(width, height, rgb)`.
pub fn diff_image(a: &BTreeSet<(i64, i64)>, b: &BTreeSet<(i64, i64)>, max_px: u32) -> (r: (u32, u32, Vec<u8>))
    requires
        max_px >= 1,
        max_px * max_px * 3 <= usize::MAX,
    ensures
        (r.0 as int, r.1 as int, r.2@) == diff_image_spec(a@, b@, max_px as int),
        r.0 >= 1,
        r.1 >= 1,
        r.2@.len() == r.0 * r.1 * 3,
{
    broadcast use vstd::std_specs::btree::group_btree_axioms;

    let la = cell_list(a);
    let lb = cell_list(b);
    let mut all: BTreeSet<(i64, i64)> = BTreeSet::new();
    let mut k: usize = 0;
    assert(la@.take(0).to_set() =~= Set::<(i64, i64)>::empty());
    while k < la.len()
        invariant
            k <= la.len(),
            sorted_enum(la@, a@),
            all@ == la@.take(k as int).to_set(),
        decreases la.len() - k,
    {
        all.insert(la[k]);
        proof {
            assert(la@.take(k + 1) =~= la@.take(k as int).push(la@[k as int]));
            la@.take(k as int).lemma_push_to_set_commute(la@[k as int]);
        }
        k += 1;
    }
    proof {
        assert(la@.take(la@.len() as int) =~= la@);
        assert(all@ == la@.to_set());
        assert(lb@.take(0).to_set() =~= Set::<(i64, i64)>::empty());
        assert(all@ =~= a@.union(lb@.take(0).to_set()));
    }
    let mut k: usize = 0;
    while k < lb.len()
        invariant
            k <= lb.len(),
            sorted_enum(la@, a@),
            sorted_enum(lb@, b@),
            all@ == a@.union(lb@.take(k as int).to_set()),
        decreases lb.len() - k,
    {
        all.insert(lb[k]);
        proof {
            assert(lb@.take(k + 1) =~= lb@.take(k as int).push(lb@[k as int]));
            lb@.take(k as int).lemma_push_to_set_commute(lb@[k as int]);
            assert(all@ =~= a@.union(lb@.take(k + 1).to_set()));
        }
        k += 1;
    }
    proof {
        assert(lb@.take(lb@.len() as int) =~= lb@);
        assert(all@ =~= a@.union(b@));
    }
    let q = cell_list(&all);
    if q.len() == 0 {
        return (1, 1, vec![255u8, 255u8, 255u8]);
    }
    // Bounding box.
    let mut minx = q[0].0;
    let mut maxx = q[0].0;
    let mut miny = q[0].1;
    let mut maxy = q[0].1;
    let mut k: usize = 1;
    assert(q@.take(1).len() == 1);
    while k < q.len()
        invariant
            1 <= k <= q.len(),
            (minx, maxx, miny, maxy) == bbox(q@.take(k as int)),
        decreases q.len() - k,
    {
        let p = q[k];
        proof {
            assert(q@.take(k + 1).drop_last() =~= q@.take(k as int));
            assert(q@.take(k + 1).last() == p);
        }
        if p.0 < minx {
            minx = p.0;
        }
        if p.0 > maxx {
            maxx = p.0;
        }
        if p.1 < miny {
            miny = p.1;
        }
        if p.1 > maxy {
            maxy = p.1;
        }
        k += 1;
    }
    proof {
        assert(q@.take(q@.len() as int) =~= q@);
        lemma_bbox(q@);
    }
    let ghost lay = layout(q@, max_px as int);
    let cw: u128 = (maxx as i128 - minx as i128 + 1) as u128;
    let ch: u128 = (maxy as i128 - miny as i128 + 1) as u128;
    let w: u32 = if cw > max_px as u128 { max_px } else { cw as u32 };
    let h: u32 = if ch > max_px as u128 { max_px } else { ch as u32 };
    assert(w * h * 3 <= max_px * max_px * 3) by (nonlinear_arith)
        requires
            1 <= w <= max_px,
            1 <= h <= max_px,
    ;
    let n: usize = (w as usize) * (h as usize) * 3;
    let mut pixels: Vec<u8> = vec![255u8; n];
    assert(pixels@ =~= paint(q@.take(0), a@, b@, lay));
    let mut k: usize = 0;
    while k < q.len()
        invariant
            k <= q.len(),
            lay == layout(q@, max_px as int),
            lay == (minx as int, miny as int, cw as int, ch as int, w as int, h as int),
            1 <= w,
            1 <= h,
            w <= 0xFFFF_FFFF,
            h <= 0xFFFF_FFFF,
            cw <= 0x1_0000_0000_0000_0000,
            ch <= 0x1_0000_0000_0000_0000,
            n == w * h * 3,
            forall|t: int| 0 <= t < q@.len() ==> minx <= (#[trigger] q@[t]).0 <= maxx && miny <= q@[t].1 <= maxy,
            cw == maxx - minx + 1,
            ch == maxy - miny + 1,
            pixels@ == paint(q@.take(k as int), a@, b@, lay),
            pixels@.len() == n,
            sorted_enum(q@, a@.union(b@)),
        decreases q.len() - k,
    {
        let c = q[k];
        let px = scale_exec((c.0 as i128 - minx as i128) as u128, cw, w as u128);
        let sy = scale_exec((c.1 as i128 - miny as i128) as u128, ch, h as u128);
        let py = (h as u128) - 1 - sy;
        proof {
            lemma_index(c, lay);
        }
        let idx: usize = ((py * (w as u128) + px) * 3) as usize;
        let in_a = a.contains(&c);
        let in_b = b.contains(&c);
        let (r, g, bl) = if in_a && in_b {
            (160u8, 160u8, 160u8)
        } else if in_a {
            (220u8, 40u8, 40u8)
        } else {
            (40u8, 80u8, 220u8)
        };
        pixels.set(idx, r);
        pixels.set(idx + 1, g);
        pixels.set(idx + 2, bl);
        proof {
            assert(q@.take(k + 1).drop_last() =~= q@.take(k as int));
            assert(q@.take(k + 1).last() == c);
        }
        k += 1;
    }
    assert(q@.take(q@.len() as int) =~= q@);
    (w, h, pixels)
}

/// Render the diff of two occupancy cell-sets to a PNG (`max_px` bounds each dimension).
pub fn render_diff_png(a: &BTreeSet<(i64, i64)>, b: &BTreeSet<(i64, i64)>, max_px: u32) -> (r: Vec<u8>)
    requires
        max_px >= 1,
        max_px * max_px * 3 <= usize::MAX,
    ensures
        r@ == diff_png_spec(a@, b@, max_px as int),
        r@.take(8) == png_signature(),
{
    let (w, h, rgb) = diff_image(a, b, max_px);
    encode_rgb(w, h, &rgb)
}

/// Render a single occupancy layer (all cells drawn as material).
pub fn render_occupancy_png(cells: &BTreeSet<(i64, i64)>, max_px: u32) -> (r: Vec<u8>)
    requires
        max_px >= 1,
        max_px * max_px * 3 <= usize::MAX,
    ensures
        r@ == diff_png_spec(cells@, cells@, max_px as int),
        r@.take(8) == png_signature(),
{
    render_diff_png(cells, cells, max_px)
}


/// The layer heights of an occupancy.
pub open spec fn layer_heights(o: Seq<(i64, i64, Set<(i64, i64)>)>) -> Set<i64> {
    Set::new(|z: i64| exists|k: int| 0 <= k < o.len() && (#[trigger] o[k]).0 == z)
}

/// The cells of the first layer of `o` at height `z`, or none.
pub open spec fn first_cells(o: Seq<(i64, i64, Set<(i64, i64)>)>, z: i64) -> Set<(i64, i64)>
    decreases o.len(),
{
    if o.len() == 0 {
        Set::empty()
    } else if o[0].0 == z {
        o[0].2
    } else {
        first_cells(o.skip(1), z)
    }
}

/// `r` holds one diff PNG per layer height the two sides share, in increasing height, each
/// rendering the first layer of each side at that height.
pub open spec fn diff_pngs_spec(
    oa: Seq<(i64, i64, Set<(i64, i64)>)>,
    ob: Seq<(i64, i64, Set<(i64, i64)>)>,
    max_px: int,
    r: Seq<(i64, Seq<u8>)>,
) -> bool {
    &&& forall|i: int, j: int| 0 <= i < j < r.len() ==> (#[trigger] r[i]).0 < (#[trigger] r[j]).0
    &&& forall|z: i64|
        (exists|i: int| 0 <= i < r.len() && (#[trigger] r[i]).0 == z) <==> #[trigger] layer_heights(oa).intersect(
            layer_heights(ob),
        ).contains(z)
    &&& forall|i: int|
        0 <= i < r.len() ==> (#[trigger] r[i]).1 == diff_png_spec(
            first_cells(oa, r[i].0),
            first_cells(ob, r[i].0),
            max_px,
        )
}

/// Insert `z` into a strictly increasing list, keeping it so.
pub(crate) fn insert_sorted(v: &mut Vec<i64>, z: i64)
    requires
        forall|i: int, j: int| 0 <= i < j < old(v)@.len() ==> old(v)@[i] < old(v)@[j],
    ensures
        forall|i: int, j: int| 0 <= i < j < final(v)@.len() ==> final(v)@[i] < final(v)@[j],
        final(v)@.to_set() == old(v)@.to_set().insert(z),
{
    let mut p: usize = 0;
    while p < v.len() && v[p] < z
        invariant
            p <= v@.len(),
            v@ == old(v)@,
            forall|i: int| 0 <= i < p ==> v@[i] < z,
        decreases v.len() - p,
    {
        p += 1;
    }
    if p < v.len() && v[p] == z {
        proof {
            assert(old(v)@.to_set().insert(z) =~= old(v)@.to_set()) by {
                assert(old(v)@[p as int] == z);
            }
        }
        return;
    }
    let ghost before = v@;
    v.insert(p, z);
    proof {
        assert(v@ == before.insert(p as int, z));
        assert forall|i: int, j: int| 0 <= i < j < v@.len() implies v@[i] < v@[j] by {
            if j < p {
            } else if j == p {
            } else if i < p {
                assert(before[j - 1] >= z);
            } else if i == p {
                assert(before[j - 1] > z);
            } else {
                assert(before[i - 1] < before[j - 1]);
            }
        }
        assert forall|x: i64| #[trigger] v@.to_set().contains(x) <==> before.to_set().insert(z).contains(x) by {
            if v@.contains(x) {
                let t = choose|t: int| 0 <= t < v@.len() && v@[t] == x;
                if t < p {
                    assert(before[t] == x);
                } else if t > p {
                    assert(before[t - 1] == x);
                }
            }
            if before.contains(x) {
                let t = choose|t: int| 0 <= t < before.len() && before[t] == x;
                if t < p {
                    assert(v@[t] == x);
                } else {
                    assert(v@[t + 1] == x);
                }
            }
            if x == z {
                assert(v@[p as int] == z);
            }
        }
        assert(v@.to_set() =~= before.to_set().insert(z));
    }
}

/// The cells of the first layer of `o` at height `z`, or an empty set.
fn first_layer_cells(o: &Occupancy, z: i64) -> (r: BTreeSet<(i64, i64)>)
    ensures
        r@ == first_cells(o@, z),
{
    let mut k: usize = 0;
    assert(o@.skip(0) =~= o@);
    while k < o.layers.len()
        invariant
            k <= o.layers.len(),
            first_cells(o@.skip(k as int), z) == first_cells(o@, z),
        decreases o.layers.len() - k,
    {
        proof {
            assert(o@.skip(k as int)[0] == o.layers@[k as int]@);
            assert(o@.skip(k as int).skip(1) =~= o@.skip(k + 1));
        }
        if o.layers[k].z_um == z {
            return o.layers[k].cells.clone();
        }
        k += 1;
    }
    proof {
        assert(o@.skip(k as int).len() == 0);
    }
    BTreeSet::new()
}

/// Whether an occupancy has a layer at height `z`.
fn has_layer(o: &Occupancy, z: i64) -> (b: bool)
    ensures
        b == layer_heights(o@).contains(z),
{
    let mut k: usize = 0;
    while k < o.layers.len()
        invariant
            k <= o.layers.len(),
            forall|t: int| 0 <= t < k ==> (#[trigger] o@[t]).0 != z,
        decreases o.layers.len() - k,
    {
        if o.layers[k].z_um == z {
            proof {
                assert(o@[k as int].0 == z);
            }
            return true;
        }
        proof {
            assert(o@[k as int].0 == o.layers@[k as int].z_um);
        }
        k += 1;
    }
    false
}

/// Render one diff PNG per layer height the two occupancies share, in increasing height.
pub fn diff_pngs(occ_a: &Occupancy, occ_b: &Occupancy, max_px: u32) -> (r: Vec<(i64, Vec<u8>)>)
    requires
        max_px >= 1,
        max_px * max_px * 3 <= usize::MAX,
    ensures
        diff_pngs_spec(occ_a@, occ_b@, max_px as int, r@.map_values(|e: (i64, Vec<u8>)| (e.0, e.1@))),
{
    let mut zs: Vec<i64> = Vec::new();
    let mut k: usize = 0;
    while k < occ_a.layers.len()
        invariant
            k <= occ_a.layers.len(),
            forall|i: int, j: int| 0 <= i < j < zs@.len() ==> zs@[i] < zs@[j],
            forall|z: i64|
                #[trigger] zs@.to_set().contains(z) <==> exists|t: int| 0 <= t < k && (#[trigger] occ_a@[t]).0 == z,
        decreases occ_a.layers.len() - k,
    {
        let ghost before = zs@;
        insert_sorted(&mut zs, occ_a.layers[k].z_um);
        proof {
            assert(occ_a@[k as int].0 == occ_a.layers@[k as int].z_um);
            assert forall|z: i64| #[trigger] zs@.to_set().contains(z) <==> exists|t: int| 0 <= t < k + 1 && (#[trigger] occ_a@[t]).0 == z by {
                if zs@.to_set().contains(z) && z != occ_a@[k as int].0 {
                    assert(before.to_set().contains(z));
                }
            }
        }
        k += 1;
    }
    proof {
        assert forall|z: i64| #[trigger] zs@.to_set().contains(z) <==> layer_heights(occ_a@).contains(z) by {
            if layer_heights(occ_a@).contains(z) {
                let t = choose|t: int| 0 <= t < occ_a@.len() && (#[trigger] occ_a@[t]).0 == z;
                assert(exists|t: int| 0 <= t < occ_a.layers@.len() && (#[trigger] occ_a@[t]).0 == z);
            }
        }
    }
    let mut out: Vec<(i64, Vec<u8>)> = Vec::new();
    let mut i: usize = 0;
    while i < zs.len()
        invariant
            i <= zs.len(),
            max_px >= 1,
            max_px * max_px * 3 <= usize::MAX,
            forall|a: int, b: int| 0 <= a < b < zs@.len() ==> zs@[a] < zs@[b],
            forall|z: i64| #[trigger] zs@.to_set().contains(z) <==> layer_heights(occ_a@).contains(z),
            forall|t: int| 0 <= t < out@.len() ==> exists|u: int| 0 <= u < i && #[trigger] zs@[u] == (#[trigger] out@[t]).0,
            forall|t: int| 0 <= t < out@.len() ==> layer_heights(occ_b@).contains((#[trigger] out@[t]).0),
            forall|a: int, b: int| 0 <= a < b < out@.len() ==> (#[trigger] out@[a]).0 < (#[trigger] out@[b]).0,
            forall|u: int|
                0 <= u < i && layer_heights(occ_b@).contains(#[trigger] zs@[u]) ==> exists|t: int|
                    0 <= t < out@.len() && (#[trigger] out@[t]).0 == zs@[u],
            forall|t: int| 0 <= t < out@.len() ==> (#[trigger] out@[t]).1@ == diff_png_spec(
                first_cells(occ_a@, out@[t].0),
                first_cells(occ_b@, out@[t].0),
                max_px as int,
            ),
        decreases zs.len() - i,
    {
        let z = zs[i];
        if has_layer(occ_b, z) {
            let ca = first_layer_cells(occ_a, z);
            let cb = first_layer_cells(occ_b, z);
            let png = render_diff_png(&ca, &cb, max_px);
            let ghost before = out@;
            proof {
                assert forall|t: int| 0 <= t < before.len() implies before[t].0 < z by {
                    let u = choose|u: int| 0 <= u < i && #[trigger] zs@[u] == before[t].0;
                }
            }
            out.push((z, png));
            proof {
                assert(out@[before.len() as int].0 == zs@[i as int]);
                assert forall|t: int| 0 <= t < out@.len() implies exists|u: int| 0 <= u < i + 1 && #[trigger] zs@[u] == (
                #[trigger] out@[t]).0 by {
                    if t < before.len() {
                        assert(out@[t] == before[t]);
                        let u = choose|u: int| 0 <= u < i && #[trigger] zs@[u] == before[t].0;
                    } else {
                        assert(zs@[i as int] == out@[t].0);
                    }
                }
                assert forall|u: int|
                    0 <= u < i + 1 && layer_heights(occ_b@).contains(#[trigger] zs@[u]) implies exists|t: int|
                    0 <= t < out@.len() && (#[trigger] out@[t]).0 == zs@[u] by {
                    if u < i {
                        let t = choose|t: int| 0 <= t < before.len() && (#[trigger] before[t]).0 == zs@[u];
                        assert(out@[t] == before[t]);
                    } else {
                        assert(out@[before.len() as int].0 == zs@[u]);
                    }
                }
            }
        } else {
            proof {
                assert forall|t: int| 0 <= t < out@.len() implies exists|u: int| 0 <= u < i + 1 && #[trigger] zs@[u] == (
                #[trigger] out@[t]).0 by {
                    let u = choose|u: int| 0 <= u < i && #[trigger] zs@[u] == out@[t].0;
                }
            }
        }
        i += 1;
    }
    proof {
        let rv = out@.map_values(|e: (i64, Vec<u8>)| (e.0, e.1@));
        assert forall|t: int| 0 <= t < out@.len() implies (#[trigger] rv[t]).0 == out@[t].0 by {}
        assert forall|z: i64|
            (exists|t: int| 0 <= t < rv.len() && (#[trigger] rv[t]).0 == z) <==> #[trigger] layer_heights(
                occ_a@,
            ).intersect(layer_heights(occ_b@)).contains(z) by {
            if exists|t: int| 0 <= t < rv.len() && (#[trigger] rv[t]).0 == z {
                let t = choose|t: int| 0 <= t < rv.len() && (#[trigger] rv[t]).0 == z;
                assert(out@[t].0 == z);
                let u = choose|u: int| 0 <= u < zs@.len() && #[trigger] zs@[u] == out@[t].0;
                assert(zs@.contains(z));
                assert(zs@.to_set().contains(z));
            }
            if layer_heights(occ_a@).intersect(layer_heights(occ_b@)).contains(z) {
                assert(zs@.to_set().contains(z));
                assert(zs@.contains(z));
                let u = choose|u: int| 0 <= u < zs@.len() && zs@[u] == z;
                assert(layer_heights(occ_b@).contains(zs@[u]));
                let t = choose|t: int| 0 <= t < out@.len() && (#[trigger] out@[t]).0 == zs@[u];
                assert(rv[t].0 == z);
            }
        }
        assert forall|a: int, b: int| 0 <= a < b < rv.len() implies (#[trigger] rv[a]).0 < (#[trigger] rv[b]).0 by {
            assert(out@[a].0 < out@[b].0);
        }
    }
    out
}

/// Parse two G-code files, denote each, and render one diff PNG per shared layer height (sorted by Z).
pub fn diff_pngs_from_gcode(a: &str, b: &str, resolution_um: i64, max_px: u32) -> (r: Vec<(i64, Vec<u8>)>)
    requires
        a.spec_bytes().len() <= isize::MAX,
        b.spec_bytes().len() <= isize::MAX,
        max_px >= 1,
        max_px * max_px * 3 <= usize::MAX,
    ensures
        exists|pa: crate::ir::lo::Program, pb: crate::ir::lo::Program|
            {
                &&& pa@ == crate::frontend::machine::gcode_plan(a.spec_bytes())
                &&& pb@ == crate::frontend::machine::gcode_plan(b.spec_bytes())
                &&& crate::frontend::gcode::layers_ok(pa.layers@)
                &&& crate::frontend::gcode::layers_ok(pb.layers@)
                &&& diff_pngs_spec(
                    crate::denote::lo_occupancy(pa.layers@, resolution_um as int),
                    crate::denote::lo_occupancy(pb.layers@, resolution_um as int),
                    max_px as int,
                    r@.map_values(|e: (i64, Vec<u8>)| (e.0, e.1@)),
                )
            },
{
    let ra = parse(a);
    let rb = parse(b);
    let oa = denote_lo(&ra.program, resolution_um);
    let ob = denote_lo(&rb.program, resolution_um);
    let r = diff_pngs(&oa, &ob, max_px);
    proof {
        let pa = ra.program;
        let pb = rb.program;
        assert(crate::frontend::gcode::layers_ok(pa.layers@));
    }
    r
}

} // verus!
