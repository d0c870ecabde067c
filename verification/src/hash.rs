//! Canonical content hashing of a move plan: a stable 128-bit digest over the IR, for
//! deduplication, cache keys, and "same program" claims across runs and machines.
//!
//! The hash is FNV-1a-128 over a canonical byte encoding of the program in order (toolpath order is
//! semantically meaningful, so it is part of the identity). All integers are encoded big-endian, so
//! a saved key means the same thing on any platform.
//!
//! What is in the identity: layer count and Z; per toolpath its kind (extrude role vs travel), and,
//! for extrudes only, width, commanded flow, and the point list. A travel's width and flow are inert
//! and excluded. Commanded flow is quantized to 10⁻⁵ mm of E (below any emitted G-code's resolution)
//! before hashing.
use vstd::prelude::*;

use crate::fnv::{fnv128_fold, fnv128_mix, lemma_fnv128_concat, lemma_fnv128_push, FNV128_OFFSET};
use crate::ir::lo::{self, SegmentKind, ToolpathView};
use crate::ir::{Point, RegionKind};

verus! {

/// The big-endian bytes of a 64-bit word.
pub open spec fn be_u64(v: u64) -> Seq<u8> {
    seq![
        (v >> 56u64) as u8,
        (v >> 48u64) as u8,
        (v >> 40u64) as u8,
        (v >> 32u64) as u8,
        (v >> 24u64) as u8,
        (v >> 16u64) as u8,
        (v >> 8u64) as u8,
        v as u8,
    ]
}

/// The role tag of an extruding toolpath.
pub open spec fn role_tag_spec(r: RegionKind) -> u8 {
    match r {
        RegionKind::Perimeter => 1,
        RegionKind::Infill => 2,
        RegionKind::Skin => 3,
        RegionKind::Support => 4,
    }
}

/// Commanded flow (nanometres of E) quantized to 10⁻⁵ mm, rounding half away from zero.
pub open spec fn quantize_flow(e: i64) -> int {
    if e >= 0 {
        (e + 5) / 10
    } else {
        -((-e + 5) / 10)
    }
}

/// The encoding of commanded flow: absent, or present with its quantized value.
pub open spec fn flow_bytes(f: Option<i64>) -> Seq<u8> {
    match f {
        Some(e) => seq![0xF1u8] + be_u64(quantize_flow(e) as i64 as u64),
        None => seq![0xF0u8],
    }
}

/// The encoding of a toolpath's kind; for an extrude also its width and flow.
pub open spec fn kind_bytes(t: ToolpathView) -> Seq<u8> {
    match t.0 {
        SegmentKind::Extrude(role) => seq![0x10u8, role_tag_spec(role)] + be_u64(t.2 as u64) + flow_bytes(t.3),
        SegmentKind::Travel => seq![0x11u8],
    }
}

/// The encoding of a point list: each point's x then y.
pub open spec fn points_bytes(pts: Seq<Point>) -> Seq<u8>
    decreases pts.len(),
{
    if pts.len() == 0 {
        Seq::empty()
    } else {
        points_bytes(pts.drop_last()) + be_u64(pts.last().x as u64) + be_u64(pts.last().y as u64)
    }
}

/// The encoding of one toolpath.
pub open spec fn toolpath_bytes(t: ToolpathView) -> Seq<u8> {
    seq![0x02u8] + kind_bytes(t) + be_u64(t.1.len() as u64) + points_bytes(t.1)
}

/// The encoding of a toolpath list.
pub open spec fn toolpaths_bytes(ts: Seq<ToolpathView>) -> Seq<u8>
    decreases ts.len(),
{
    if ts.len() == 0 {
        Seq::empty()
    } else {
        toolpaths_bytes(ts.drop_last()) + toolpath_bytes(ts.last())
    }
}

/// The encoding of one layer: a marker, its z, its toolpath count and its toolpaths.
pub open spec fn layer_bytes(l: (i64, Seq<ToolpathView>)) -> Seq<u8> {
    seq![0x01u8] + be_u64(l.0 as u64) + be_u64(l.1.len() as u64) + toolpaths_bytes(l.1)
}

/// The encoding of a layer list.
pub open spec fn layers_bytes(ls: Seq<(i64, Seq<ToolpathView>)>) -> Seq<u8>
    decreases ls.len(),
{
    if ls.len() == 0 {
        Seq::empty()
    } else {
        layers_bytes(ls.drop_last()) + layer_bytes(ls.last())
    }
}

/// The canonical encoding of a move plan: its layer count, then its layers.
pub open spec fn program_bytes(pv: Seq<(i64, Seq<ToolpathView>)>) -> Seq<u8> {
    be_u64(pv.len() as u64) + layers_bytes(pv)
}

/// FNV-1a-128 over bytes, from state `h`.
pub open spec fn fold_bytes(h: u128, bs: Seq<u8>) -> u128 {
    fnv128_fold(h, bs.map_values(|b: u8| b as u128))
}

/// The canonical 128-bit digest of a move plan.
pub open spec fn canonical_digest(pv: Seq<(i64, Seq<ToolpathView>)>) -> u128 {
    fold_bytes(FNV128_OFFSET, program_bytes(pv))
}

/// Lowercase hex digit of a nibble.
pub open spec fn hex_digit(n: u128) -> char {
    if n < 10 {
        (48 + n) as u8 as char
    } else {
        (87 + n) as u8 as char
    }
}

/// The 32 lowercase hex digits of a 128-bit value, most significant first.
pub open spec fn hex32(v: u128) -> Seq<char> {
    Seq::new(32, |k: int| hex_digit((v >> (4 * (31 - k)) as u128) & 15u128))
}

proof fn lemma_fold_bytes_concat(h: u128, a: Seq<u8>, b: Seq<u8>)
    ensures
        fold_bytes(h, a + b) == fold_bytes(fold_bytes(h, a), b),
{
    let f = |b: u8| b as u128;
    assert((a + b).map_values(f) =~= a.map_values(f) + b.map_values(f));
    lemma_fnv128_concat(h, a.map_values(f), b.map_values(f));
}

fn mix_byte(h: u128, b: u8) -> (r: u128)
    ensures
        r == fold_bytes(h, seq![b]),
{
    proof {
        let f = |b: u8| b as u128;
        assert(seq![b].map_values(f) =~= Seq::<u128>::empty().push(b as u128));
        lemma_fnv128_push(h, Seq::empty(), b as u128);
    }
    fnv128_mix(h, b as u128)
}

fn mix_u64(h: u128, v: u64) -> (r: u128)
    ensures
        r == fold_bytes(h, be_u64(v)),
{
    let b0 = (v >> 56u64) as u8;
    let b1 = (v >> 48u64) as u8;
    let b2 = (v >> 40u64) as u8;
    let b3 = (v >> 32u64) as u8;
    let b4 = (v >> 24u64) as u8;
    let b5 = (v >> 16u64) as u8;
    let b6 = (v >> 8u64) as u8;
    let b7 = v as u8;
    let h0 = mix_byte(h, b0);
    let h1 = mix_byte(h0, b1);
    let h2 = mix_byte(h1, b2);
    let h3 = mix_byte(h2, b3);
    let h4 = mix_byte(h3, b4);
    let h5 = mix_byte(h4, b5);
    let h6 = mix_byte(h5, b6);
    let h7 = mix_byte(h6, b7);
    proof {
        lemma_fold_bytes_concat(h, seq![b0], seq![b1]);
        lemma_fold_bytes_concat(h, seq![b0, b1], seq![b2]);
        lemma_fold_bytes_concat(h, seq![b0, b1, b2], seq![b3]);
        lemma_fold_bytes_concat(h, seq![b0, b1, b2, b3], seq![b4]);
        lemma_fold_bytes_concat(h, seq![b0, b1, b2, b3, b4], seq![b5]);
        lemma_fold_bytes_concat(h, seq![b0, b1, b2, b3, b4, b5], seq![b6]);
        lemma_fold_bytes_concat(h, seq![b0, b1, b2, b3, b4, b5, b6], seq![b7]);
        assert(seq![b0] + seq![b1] =~= seq![b0, b1]);
        assert(seq![b0, b1] + seq![b2] =~= seq![b0, b1, b2]);
        assert(seq![b0, b1, b2] + seq![b3] =~= seq![b0, b1, b2, b3]);
        assert(seq![b0, b1, b2, b3] + seq![b4] =~= seq![b0, b1, b2, b3, b4]);
        assert(seq![b0, b1, b2, b3, b4] + seq![b5] =~= seq![b0, b1, b2, b3, b4, b5]);
        assert(seq![b0, b1, b2, b3, b4, b5] + seq![b6] =~= seq![b0, b1, b2, b3, b4, b5, b6]);
        assert(seq![b0, b1, b2, b3, b4, b5, b6] + seq![b7] =~= be_u64(v));
    }
    h7
}

fn role_tag(r: RegionKind) -> (t: u8)
    ensures
        t == role_tag_spec(r),
{
    match r {
        RegionKind::Perimeter => 1,
        RegionKind::Infill => 2,
        RegionKind::Skin => 3,
        RegionKind::Support => 4,
    }
}

fn quantize(e: i64) -> (q: i64)
    ensures
        q == quantize_flow(e),
{
    let w = e as i128;
    let q: i128 = if w >= 0 { (w + 5) / 10 } else { -((-w + 5) / 10) };
    q as i64
}

fn mix_kind(h: u128, t: &lo::Toolpath) -> (r: u128)
    ensures
        r == fold_bytes(h, kind_bytes(t@)),
{
    match t.kind {
        SegmentKind::Extrude(role) => {
            let h1 = mix_byte(h, 0x10);
            let h2 = mix_byte(h1, role_tag(role));
            let h3 = mix_u64(h2, t.width_um as u64);
            let h4 = match t.flow_e {
                Some(e) => {
                    let h5 = mix_byte(h3, 0xF1);
                    let h6 = mix_u64(h5, quantize(e) as u64);
                    proof {
                        lemma_fold_bytes_concat(h3, seq![0xF1u8], be_u64(quantize_flow(e) as i64 as u64));
                    }
                    h6
                },
                None => mix_byte(h3, 0xF0),
            };
            proof {
                let tag = role_tag_spec(role);
                lemma_fold_bytes_concat(h, seq![0x10u8], seq![tag]);
                assert(seq![0x10u8] + seq![tag] =~= seq![0x10u8, tag]);
                lemma_fold_bytes_concat(h, seq![0x10u8, tag], be_u64(t.width_um as u64));
                lemma_fold_bytes_concat(h, seq![0x10u8, tag] + be_u64(t.width_um as u64), flow_bytes(t.flow_e));
            }
            h4
        },
        SegmentKind::Travel => mix_byte(h, 0x11),
    }
}

fn mix_points(h: u128, pts: &Vec<Point>) -> (r: u128)
    ensures
        r == fold_bytes(h, points_bytes(pts@)),
{
    let mut acc = h;
    let mut k: usize = 0;
    assert(pts@.take(0) =~= Seq::<Point>::empty());
    assert(fold_bytes(h, Seq::<u8>::empty()) == h) by {
        assert(Seq::<u8>::empty().map_values(|b: u8| b as u128) =~= Seq::<u128>::empty());
    }
    while k < pts.len()
        invariant
            k <= pts.len(),
            acc == fold_bytes(h, points_bytes(pts@.take(k as int))),
        decreases pts.len() - k,
    {
        let p = pts[k];
        proof {
            assert(pts@.take(k + 1).drop_last() =~= pts@.take(k as int));
            let pre = points_bytes(pts@.take(k as int));
            lemma_fold_bytes_concat(h, pre, be_u64(p.x as u64));
            lemma_fold_bytes_concat(h, pre + be_u64(p.x as u64), be_u64(p.y as u64));
        }
        acc = mix_u64(acc, p.x as u64);
        acc = mix_u64(acc, p.y as u64);
        k += 1;
    }
    assert(pts@.take(k as int) =~= pts@);
    acc
}

fn mix_toolpath(h: u128, t: &lo::Toolpath) -> (r: u128)
    ensures
        r == fold_bytes(h, toolpath_bytes(t@)),
{
    let h1 = mix_byte(h, 0x02);
    let h2 = mix_kind(h1, t);
    let h3 = mix_u64(h2, t.path.points.len() as u64);
    let h4 = mix_points(h3, &t.path.points);
    proof {
        lemma_fold_bytes_concat(h, seq![0x02u8], kind_bytes(t@));
        lemma_fold_bytes_concat(h, seq![0x02u8] + kind_bytes(t@), be_u64(t@.1.len() as u64));
        lemma_fold_bytes_concat(
            h,
            seq![0x02u8] + kind_bytes(t@) + be_u64(t@.1.len() as u64),
            points_bytes(t@.1),
        );
    }
    h4
}

fn mix_layer(h: u128, layer: &lo::Layer) -> (r: u128)
    ensures
        r == fold_bytes(h, layer_bytes(layer@)),
{
    let h1 = mix_byte(h, 0x01);
    let h2 = mix_u64(h1, layer.z_um as u64);
    let h3 = mix_u64(h2, layer.toolpaths.len() as u64);
    let ghost tv = layer@.1;
    let mut acc = h3;
    let mut k: usize = 0;
    assert(tv.take(0) =~= Seq::<ToolpathView>::empty());
    assert(fold_bytes(h3, Seq::<u8>::empty()) == h3) by {
        assert(Seq::<u8>::empty().map_values(|b: u8| b as u128) =~= Seq::<u128>::empty());
    }
    while k < layer.toolpaths.len()
        invariant
            k <= layer.toolpaths.len(),
            tv == layer@.1,
            acc == fold_bytes(h3, toolpaths_bytes(tv.take(k as int))),
        decreases layer.toolpaths.len() - k,
    {
        proof {
            assert(tv.take(k + 1).drop_last() =~= tv.take(k as int));
            assert(tv[k as int] == layer.toolpaths@[k as int]@);
            lemma_fold_bytes_concat(h3, toolpaths_bytes(tv.take(k as int)), toolpath_bytes(tv[k as int]));
        }
        acc = mix_toolpath(acc, &layer.toolpaths[k]);
        k += 1;
    }
    proof {
        assert(tv.take(k as int) =~= tv);
        lemma_fold_bytes_concat(h, seq![0x01u8], be_u64(layer.z_um as u64));
        lemma_fold_bytes_concat(h, seq![0x01u8] + be_u64(layer.z_um as u64), be_u64(tv.len() as u64));
        lemma_fold_bytes_concat(
            h,
            seq![0x01u8] + be_u64(layer.z_um as u64) + be_u64(tv.len() as u64),
            toolpaths_bytes(tv),
        );
    }
    acc
}

/// The 128-bit canonical digest of a program.
pub fn canonical_hash_u128(program: &lo::Program) -> (h: u128)
    ensures
        h == canonical_digest(program@),
{
    let ghost pv = program@;
    let h0 = mix_u64(FNV128_OFFSET, program.layers.len() as u64);
    let mut acc = h0;
    let mut k: usize = 0;
    assert(pv.take(0) =~= Seq::<(i64, Seq<ToolpathView>)>::empty());
    assert(fold_bytes(h0, Seq::<u8>::empty()) == h0) by {
        assert(Seq::<u8>::empty().map_values(|b: u8| b as u128) =~= Seq::<u128>::empty());
    }
    while k < program.layers.len()
        invariant
            k <= program.layers.len(),
            pv == program@,
            acc == fold_bytes(h0, layers_bytes(pv.take(k as int))),
        decreases program.layers.len() - k,
    {
        proof {
            assert(pv.take(k + 1).drop_last() =~= pv.take(k as int));
            assert(pv[k as int] == program.layers@[k as int]@);
            lemma_fold_bytes_concat(h0, layers_bytes(pv.take(k as int)), layer_bytes(pv[k as int]));
        }
        acc = mix_layer(acc, &program.layers[k]);
        k += 1;
    }
    proof {
        assert(pv.take(k as int) =~= pv);
        lemma_fold_bytes_concat(FNV128_OFFSET, be_u64(pv.len() as u64), layers_bytes(pv));
    }
    acc
}

/// Append one character to a `String`.
///
/// Calls `String::push`. Claimed: the text gains `c` at its end and is otherwise unchanged.
#[verifier::external_body]
pub(crate) fn push_char(s: &mut String, c: char)
    ensures
        final(s)@ == old(s)@.push(c),
{
    s.push(c)
}

pub(crate) fn hex_char(n: u128) -> (c: char)
    requires
        n < 16,
    ensures
        c == hex_digit(n),
{
    if n < 10 {
        (48 + n as u8) as char
    } else {
        (87 + n as u8) as char
    }
}

/// The canonical digest as a lowercase 32-char hex string: a stable program identity.
pub fn canonical_hash(program: &lo::Program) -> (s: String)
    ensures
        s@ == hex32(canonical_digest(program@)),
{
    let v = canonical_hash_u128(program);
    let mut s = String::new();
    let mut k: u32 = 0;
    while k < 32
        invariant
            k <= 32,
            s@ == hex32(v).take(k as int),
        decreases 32 - k,
    {
        let shift: u128 = (4 * (31 - k)) as u128;
        let n = (v >> shift) & 15u128;
        assert(n < 16) by (bit_vector)
            requires
                n == (v >> shift) & 15u128,
        ;
        push_char(&mut s, hex_char(n));
        k += 1;
        assert(s@ =~= hex32(v).take(k as int));
    }
    assert(hex32(v).take(32) =~= hex32(v));
    s
}

/// `a` and `b` differ at position `i`.
pub open spec fn differ_at(a: Seq<u8>, b: Seq<u8>, i: int) -> bool {
    0 <= i < a.len() && i < b.len() && a[i] != b[i]
}

proof fn lemma_differ_within(p: Seq<u8>, c1: Seq<u8>, c2: Seq<u8>, s1: Seq<u8>, s2: Seq<u8>, k: int)
    requires
        differ_at(c1, c2, k),
    ensures
        differ_at(p + c1 + s1, p + c2 + s2, p.len() + k),
{
    assert((p + c1 + s1)[p.len() + k] == c1[k]);
    assert((p + c2 + s2)[p.len() + k] == c2[k]);
}

proof fn lemma_toolpaths_bytes_concat(a: Seq<ToolpathView>, b: Seq<ToolpathView>)
    ensures
        toolpaths_bytes(a + b) == toolpaths_bytes(a) + toolpaths_bytes(b),
    decreases b.len(),
{
    if b.len() == 0 {
        assert(a + b =~= a);
        assert(toolpaths_bytes(a) + toolpaths_bytes(b) =~= toolpaths_bytes(a));
    } else {
        lemma_toolpaths_bytes_concat(a, b.drop_last());
        assert((a + b).drop_last() =~= a + b.drop_last());
        assert(toolpaths_bytes(a) + (toolpaths_bytes(b.drop_last()) + toolpath_bytes(b.last())) =~= (
        toolpaths_bytes(a) + toolpaths_bytes(b.drop_last())) + toolpath_bytes(b.last()));
    }
}

proof fn lemma_layers_bytes_concat(a: Seq<(i64, Seq<ToolpathView>)>, b: Seq<(i64, Seq<ToolpathView>)>)
    ensures
        layers_bytes(a + b) == layers_bytes(a) + layers_bytes(b),
    decreases b.len(),
{
    if b.len() == 0 {
        assert(a + b =~= a);
        assert(layers_bytes(a) + layers_bytes(b) =~= layers_bytes(a));
    } else {
        lemma_layers_bytes_concat(a, b.drop_last());
        assert((a + b).drop_last() =~= a + b.drop_last());
        assert(layers_bytes(a) + (layers_bytes(b.drop_last()) + layer_bytes(b.last())) =~= (layers_bytes(a)
            + layers_bytes(b.drop_last())) + layer_bytes(b.last()));
    }
}

/// Distinct roles have distinct tags: the encoding tells every role apart.
pub proof fn lemma_role_tags_distinct(r1: RegionKind, r2: RegionKind)
    ensures
        role_tag_spec(r1) == role_tag_spec(r2) ==> r1 == r2,
{
}

/// Two extruding toolpaths of different roles are encoded differently, whatever else they hold.
pub proof fn lemma_role_distinguishes_toolpaths(t: ToolpathView, u: ToolpathView)
    requires
        t.0 is Extrude,
        u.0 is Extrude,
        t.0 != u.0,
    ensures
        differ_at(toolpath_bytes(t), toolpath_bytes(u), 2),
        toolpath_bytes(t) != toolpath_bytes(u),
{
    lemma_role_tags_distinct(t.0->0, u.0->0);
    assert(toolpath_bytes(t)[2] == role_tag_spec(t.0->0));
    assert(toolpath_bytes(u)[2] == role_tag_spec(u.0->0));
}

proof fn lemma_one_toolpath(x: ToolpathView)
    ensures
        toolpaths_bytes(seq![x]) == toolpath_bytes(x),
{
    let e = Seq::<ToolpathView>::empty();
    assert(seq![x].drop_last() =~= e);
    assert(toolpaths_bytes(e) == Seq::<u8>::empty());
    assert(seq![x].last() == x);
    assert(Seq::<u8>::empty() + toolpath_bytes(x) =~= toolpath_bytes(x));
}

proof fn lemma_one_layer(x: (i64, Seq<ToolpathView>))
    ensures
        layers_bytes(seq![x]) == layer_bytes(x),
{
    let e = Seq::<(i64, Seq<ToolpathView>)>::empty();
    assert(seq![x].drop_last() =~= e);
    assert(layers_bytes(e) == Seq::<u8>::empty());
    assert(seq![x].last() == x);
    assert(Seq::<u8>::empty() + layer_bytes(x) =~= layer_bytes(x));
}

proof fn lemma_toolpaths_differ(ts: Seq<ToolpathView>, t: int, y: ToolpathView, k: int)
    requires
        0 <= t < ts.len(),
        differ_at(toolpath_bytes(ts[t]), toolpath_bytes(y), k),
    ensures
        exists|m: int| differ_at(toolpaths_bytes(ts), toolpaths_bytes(ts.update(t, y)), m),
{
    let x = ts[t];
    let us = ts.update(t, y);
    let t1 = ts.take(t);
    let t2 = ts.skip(t + 1);
    assert(ts =~= t1 + seq![x] + t2);
    assert(us =~= t1 + seq![y] + t2);
    lemma_toolpaths_bytes_concat(t1 + seq![x], t2);
    lemma_toolpaths_bytes_concat(t1, seq![x]);
    lemma_toolpaths_bytes_concat(t1 + seq![y], t2);
    lemma_toolpaths_bytes_concat(t1, seq![y]);
    assert(seq![x].drop_last() =~= Seq::<ToolpathView>::empty());
    assert(seq![y].drop_last() =~= Seq::<ToolpathView>::empty());
    lemma_one_toolpath(x);
    lemma_one_toolpath(y);
    lemma_differ_within(toolpaths_bytes(t1), toolpath_bytes(x), toolpath_bytes(y), toolpaths_bytes(t2), toolpaths_bytes(t2), k);
}

proof fn lemma_layer_differs(z: i64, ts: Seq<ToolpathView>, us: Seq<ToolpathView>, k: int)
    requires
        ts.len() == us.len(),
        differ_at(toolpaths_bytes(ts), toolpaths_bytes(us), k),
    ensures
        exists|m: int| differ_at(layer_bytes((z, ts)), layer_bytes((z, us)), m),
{
    let head = seq![0x01u8] + be_u64(z as u64) + be_u64(ts.len() as u64);
    lemma_differ_within(head, toolpaths_bytes(ts), toolpaths_bytes(us), Seq::empty(), Seq::empty(), k);
    assert(head + toolpaths_bytes(ts) + Seq::<u8>::empty() =~= layer_bytes((z, ts)));
    assert(head + toolpaths_bytes(us) + Seq::<u8>::empty() =~= layer_bytes((z, us)));
}

proof fn lemma_layers_differ(p: Seq<(i64, Seq<ToolpathView>)>, l: int, y: (i64, Seq<ToolpathView>), k: int)
    requires
        0 <= l < p.len(),
        differ_at(layer_bytes(p[l]), layer_bytes(y), k),
    ensures
        exists|m: int| differ_at(program_bytes(p), program_bytes(p.update(l, y)), m),
{
    let x = p[l];
    let q = p.update(l, y);
    let l1 = p.take(l);
    let l2 = p.skip(l + 1);
    assert(p =~= l1 + seq![x] + l2);
    assert(q =~= l1 + seq![y] + l2);
    lemma_layers_bytes_concat(l1 + seq![x], l2);
    lemma_layers_bytes_concat(l1, seq![x]);
    lemma_layers_bytes_concat(l1 + seq![y], l2);
    lemma_layers_bytes_concat(l1, seq![y]);
    assert(seq![x].drop_last() =~= Seq::<(i64, Seq<ToolpathView>)>::empty());
    assert(seq![y].drop_last() =~= Seq::<(i64, Seq<ToolpathView>)>::empty());
    lemma_one_layer(x);
    lemma_one_layer(y);
    let pre = be_u64(p.len() as u64) + layers_bytes(l1);
    lemma_differ_within(pre, layer_bytes(x), layer_bytes(y), layers_bytes(l2), layers_bytes(l2), k);
    assert(program_bytes(p) =~= pre + layer_bytes(x) + layers_bytes(l2));
    assert(program_bytes(q) =~= pre + layer_bytes(y) + layers_bytes(l2));
}

/// The canonical encoding of a move plan is injective in the role of each extruding toolpath:
/// changing only the role of one toolpath changes the encoding.
pub proof fn lemma_role_change_changes_encoding(
    p: Seq<(i64, Seq<ToolpathView>)>,
    l: int,
    t: int,
    r: RegionKind,
)
    requires
        0 <= l < p.len(),
        0 <= t < p[l].1.len(),
        p[l].1[t].0 is Extrude,
        p[l].1[t].0 != SegmentKind::Extrude(r),
    ensures
        program_bytes(p) != program_bytes(
            p.update(
                l,
                (p[l].0, p[l].1.update(t, (SegmentKind::Extrude(r), p[l].1[t].1, p[l].1[t].2, p[l].1[t].3))),
            ),
        ),
{
    let ts = p[l].1;
    let x = ts[t];
    let y = (SegmentKind::Extrude(r), x.1, x.2, x.3);
    let us = ts.update(t, y);
    lemma_role_distinguishes_toolpaths(x, y);
    lemma_toolpaths_differ(ts, t, y, 2);
    let k1 = choose|m: int| differ_at(toolpaths_bytes(ts), toolpaths_bytes(us), m);
    lemma_layer_differs(p[l].0, ts, us, k1);
    let k2 = choose|m: int| differ_at(layer_bytes((p[l].0, ts)), layer_bytes((p[l].0, us)), m);
    assert(p[l] == (p[l].0, ts));
    lemma_layers_differ(p, l, (p[l].0, us), k2);
    let k3 = choose|m: int| differ_at(program_bytes(p), program_bytes(p.update(l, (p[l].0, us))), m);
    assert(program_bytes(p)[k3] != program_bytes(p.update(l, (p[l].0, us)))[k3]);
}

} // verus!
