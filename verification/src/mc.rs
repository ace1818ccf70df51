//! The voxelizer: scanline even-odd rasterization of the native
//! geometric values into discrete block positions, and the block
//! placement / destruction command text.
//!
//! Only axis-aligned (vertical) polygon edges are supported for
//! intersection, a preserved limitation of the rasterizer. Coordinates
//! that leave the machine range are reported as a range failure.

use vstd::prelude::*;
use vstd::string::StringExecFns;

use crate::eval::NativeValue;
use crate::eval::NativeV;
use crate::eval::Polygon;
use crate::eval::PolyV;
use crate::num::MICRO;
use crate::num::Num;

verus! {

/// A voxel: a 3D integer position and an optional texture tag.
#[derive(Debug)]
pub struct Block {
    pub pos: (i64, i64, i64),
    pub texture: Option<String>,
}

/// The shape of a block.
pub struct BlockV {
    pub pos: (int, int, int),
    pub texture: Option<Seq<char>>,
}

impl Block {
    /// The shape of this block.
    pub open spec fn deep(self) -> BlockV {
        BlockV {
            pos: (self.pos.0 as int, self.pos.1 as int, self.pos.2 as int),
            texture: match self.texture {
                Some(t) => Some(t@),
                None => None,
            },
        }
    }
}

/// The shapes of a block sequence.
pub open spec fn blocks_view(s: Seq<Block>) -> Seq<BlockV>
    decreases s,
{
    if s.len() == 0 {
        Seq::empty()
    } else {
        blocks_view(s.drop_last()).push(s.last().deep())
    }
}

/// `blocks_view` is the element-wise shape of the sequence.
pub proof fn lemma_blocks_view(s: Seq<Block>)
    ensures
        blocks_view(s).len() == s.len(),
        forall|i: int| 0 <= i < s.len() ==> blocks_view(s)[i] == #[trigger] s[i].deep(),
    decreases s,
{
    if s.len() > 0 {
        lemma_blocks_view(s.drop_last());
        assert forall|i: int| 0 <= i < s.len() implies blocks_view(s)[i] == #[trigger] s[
            i
        ].deep() by {
            if i < s.len() - 1 {
                assert(s.drop_last()[i] == s[i]);
            } else {
                assert(s[i] == s.last());
            }
        }
    }
}

/// A rasterization failure.
#[derive(Debug, Clone, Copy, PartialEq, Eq, Structural)]
pub enum RasterError {
    /// An edge that is not axis-aligned crossed a scanline.
    NonAxisAlignedEdge,
    /// A coordinate left the machine range.
    Range,
    /// A textured block, which no command supports yet.
    Texture,
}

/// Whether `v` fits the block coordinate range.
pub open spec fn in_i64(v: int) -> bool {
    i64::MIN <= v <= i64::MAX
}

/// `p` millionths rounded to the nearest integer, halves away from zero.
pub open spec fn round_div_micro(p: int) -> int {
    if p >= 0 {
        (p + (MICRO as int) / 2) / (MICRO as int)
    } else {
        -((-p + (MICRO as int) / 2) / (MICRO as int))
    }
}

/// A coordinate scaled by `scale` and rounded to the nearest integer.
pub open spec fn spec_scale(v: int, scale: int) -> int {
    round_div_micro(v * scale)
}

/// `spec_scale`, checked against the machine range.
pub open spec fn scale_chk(v: int, scale: int) -> Result<int, RasterError> {
    if in_i64(spec_scale(v, scale)) {
        Ok(spec_scale(v, scale))
    } else {
        Err(RasterError::Range)
    }
}

/// Scales a coordinate, rounding to the nearest integer.
pub fn apply_scale(v: Num, scale: i32) -> (r: Result<i64, RasterError>)
    ensures
        match r {
            Ok(x) => scale_chk(v.value(), scale as int) == Ok::<int, RasterError>(x as int),
            Err(e) => scale_chk(v.value(), scale as int) == Err::<int, RasterError>(e),
        },
{
    proof {
        assert(-0x1_0000_0000_0000_0000_0000_0000i128 <= (v.raw as i128) * (scale as i128)
            <= 0x1_0000_0000_0000_0000_0000_0000i128) by (nonlinear_arith)
            requires
                -0x8000_0000_0000_0000i128 <= v.raw as i128 <= 0x7FFF_FFFF_FFFF_FFFFi128,
                -0x8000_0000i128 <= scale as i128 <= 0x7FFF_FFFFi128,
        ;
    }
    let p: i128 = (v.raw as i128) * (scale as i128);
    let rounded: i128 = if p >= 0 {
        (p + (MICRO as i128) / 2) / (MICRO as i128)
    } else {
        -((-p + (MICRO as i128) / 2) / (MICRO as i128))
    };
    if rounded >= i64::MIN as i128 && rounded <= i64::MAX as i128 {
        Ok(rounded as i64)
    } else {
        Err(RasterError::Range)
    }
}

/// The scaled vertices, each checked against the range.
pub open spec fn scaled_pts(points: Seq<(int, int)>, scale: int) -> Result<
    Seq<(int, int)>,
    RasterError,
>
    decreases points,
{
    if points.len() == 0 {
        Ok(Seq::empty())
    } else {
        match scaled_pts(points.drop_last(), scale) {
            Err(e) => Err(e),
            Ok(pre) => match (
                scale_chk(points.last().0, scale),
                scale_chk(points.last().1, scale),
            ) {
                (Ok(x), Ok(y)) => Ok(pre.push((x, y))),
                _ => Err(RasterError::Range),
            },
        }
    }
}

/// The least element of a non-empty sequence.
pub open spec fn seq_min(s: Seq<int>) -> int
    decreases s.len(),
{
    if s.len() <= 1 {
        s[0]
    } else {
        let m = seq_min(s.drop_last());
        if s.last() < m {
            s.last()
        } else {
            m
        }
    }
}

/// The greatest element of a non-empty sequence.
pub open spec fn seq_max(s: Seq<int>) -> int
    decreases s.len(),
{
    if s.len() <= 1 {
        s[0]
    } else {
        let m = seq_max(s.drop_last());
        if s.last() > m {
            s.last()
        } else {
            m
        }
    }
}

/// The first vertex of edge `k`: the predecessor of vertex `k`, with
/// the last vertex closing the ring.
pub open spec fn edge_p1(sp: Seq<(int, int)>, k: int) -> (int, int) {
    if k == 0 {
        sp[sp.len() - 1]
    } else {
        sp[k - 1]
    }
}

/// Whether the edge from `p1` to `p2` crosses scanline `y` under the
/// half-open rule.
pub open spec fn crossing(p1: (int, int), p2: (int, int), y: int) -> bool {
    (p2.1 <= y && y < p1.1) || (p1.1 <= y && y < p2.1)
}

/// The x-coordinates where edges `0..k` cross scanline `y`, in edge
/// order; a crossing edge that is not vertical is unsupported.
pub open spec fn inters_upto(sp: Seq<(int, int)>, y: int, k: int) -> Result<Seq<int>, RasterError>
    decreases k,
{
    if k <= 0 {
        Ok(Seq::empty())
    } else {
        match inters_upto(sp, y, k - 1) {
            Err(e) => Err(e),
            Ok(pre) => {
                let p1 = edge_p1(sp, k - 1);
                let p2 = sp[k - 1];
                if crossing(p1, p2, y) {
                    if p1.0 - p2.0 == 0 {
                        Ok(pre.push(p1.0))
                    } else {
                        Err(RasterError::NonAxisAlignedEdge)
                    }
                } else {
                    Ok(pre)
                }
            },
        }
    }
}

/// How many intersection x-coordinates lie at or left of `x`.
pub open spec fn count_le(s: Seq<int>, x: int) -> int
    decreases s,
{
    if s.len() == 0 {
        0
    } else {
        count_le(s.drop_last(), x) + (if s.last() <= x {
            1int
        } else {
            0int
        })
    }
}

/// A scanline's blocks for `x` in `[x_from, x_to)`: one block wherever
/// the intersection count at or left of `x` is odd, at the scaled
/// origin offset, checked against the range.
pub open spec fn row_blocks(
    inters: Seq<int>,
    x_from: int,
    x_to: int,
    y: int,
    pos: (int, int, int),
    scale: int,
) -> Result<Seq<BlockV>, RasterError>
    decreases x_to - x_from,
{
    if x_from >= x_to {
        Ok(Seq::empty())
    } else {
        match row_blocks(inters, x_from, x_to - 1, y, pos, scale) {
            Err(e) => Err(e),
            Ok(pre) => {
                let x = x_to - 1;
                if count_le(inters, x) % 2 == 1 {
                    match (scale_chk(pos.0, scale), scale_chk(pos.1, scale)) {
                        (Ok(offx), Ok(offy)) => {
                            if in_i64(x + offx) && in_i64(y + offy) {
                                Ok(
                                    pre.push(
                                        BlockV {
                                            pos: (x + offx, y + offy, 0),
                                            texture: None,
                                        },
                                    ),
                                )
                            } else {
                                Err(RasterError::Range)
                            }
                        },
                        _ => Err(RasterError::Range),
                    }
                } else {
                    Ok(pre)
                }
            },
        }
    }
}

/// The blocks of the scanlines `y` in `[y_from, y_to)`.
pub open spec fn rows_blocks(
    sp: Seq<(int, int)>,
    y_from: int,
    y_to: int,
    x_from: int,
    x_to: int,
    pos: (int, int, int),
    scale: int,
) -> Result<Seq<BlockV>, RasterError>
    decreases y_to - y_from,
{
    if y_from >= y_to {
        Ok(Seq::empty())
    } else {
        match rows_blocks(sp, y_from, y_to - 1, x_from, x_to, pos, scale) {
            Err(e) => Err(e),
            Ok(pre) => match inters_upto(sp, y_to - 1, sp.len() as int) {
                Err(e) => Err(e),
                Ok(inters) => match row_blocks(inters, x_from, x_to, y_to - 1, pos, scale) {
                    Err(e) => Err(e),
                    Ok(row) => Ok(pre + row),
                },
            },
        }
    }
}

/// The x-coordinates of a point sequence.
pub open spec fn xs_of(sp: Seq<(int, int)>) -> Seq<int> {
    Seq::new(sp.len(), |i: int| sp[i].0)
}

/// The y-coordinates of a point sequence.
pub open spec fn ys_of(sp: Seq<(int, int)>) -> Seq<int> {
    Seq::new(sp.len(), |i: int| sp[i].1)
}

/// A polygon's rasterization: every integer point of the padded
/// bounding box that the even-odd rule puts inside, offset by the
/// scaled origin. A polygon without vertices has no blocks.
pub open spec fn spec_polygon_blocks(p: PolyV, scale: int) -> Result<Seq<BlockV>, RasterError> {
    if p.points.len() == 0 {
        Ok(Seq::empty())
    } else {
        match scaled_pts(p.points, scale) {
            Err(e) => Err(e),
            Ok(sp) => {
                let xmin = seq_min(xs_of(sp));
                let xmax = seq_max(xs_of(sp));
                let ymin = seq_min(ys_of(sp));
                let ymax = seq_max(ys_of(sp));
                if !in_i64(xmin - 1) || !in_i64(xmax + 1) || !in_i64(ymin - 1) || !in_i64(
                    ymax + 1,
                ) {
                    Err(RasterError::Range)
                } else {
                    rows_blocks(sp, ymin - 1, ymax + 1, xmin - 1, xmax + 1, p.pos, scale)
                }
            },
        }
    }
}

/// One extrusion layer: the footprint lifted to height `i`, each block's
/// vertical coordinate checked against the range. The scaled vertical
/// origin offset is applied per block.
pub open spec fn layer_blocks(fp: Seq<BlockV>, i: int, posz: int, scale: int) -> Result<
    Seq<BlockV>,
    RasterError,
>
    decreases fp,
{
    if fp.len() == 0 {
        Ok(Seq::empty())
    } else {
        match layer_blocks(fp.drop_last(), i, posz, scale) {
            Err(e) => Err(e),
            Ok(pre) => match scale_chk(posz, scale) {
                Err(e) => Err(e),
                Ok(offz) => {
                    let b = fp.last();
                    if in_i64(i + offz) && in_i64(b.pos.2 + (i + offz)) {
                        Ok(
                            pre.push(
                                BlockV {
                                    pos: (b.pos.0, b.pos.1, b.pos.2 + (i + offz)),
                                    texture: b.texture,
                                },
                            ),
                        )
                    } else {
                        Err(RasterError::Range)
                    }
                },
            },
        }
    }
}

/// The layers `0..count`, stacked in order.
pub open spec fn layers_blocks(fp: Seq<BlockV>, count: int, posz: int, scale: int) -> Result<
    Seq<BlockV>,
    RasterError,
>
    decreases count,
{
    if count <= 0 {
        Ok(Seq::empty())
    } else {
        match layers_blocks(fp, count - 1, posz, scale) {
            Err(e) => Err(e),
            Ok(pre) => match layer_blocks(fp, count - 1, posz, scale) {
                Err(e) => Err(e),
                Ok(layer) => Ok(pre + layer),
            },
        }
    }
}

/// A native value's rasterization: a polygon is its footprint; an
/// extrusion replicates the footprint across `round(height * scale)`
/// stacked layers.
pub open spec fn spec_rasterize(nv: NativeV, scale: int) -> Result<Seq<BlockV>, RasterError> {
    match nv {
        NativeV::Polygon(p) => spec_polygon_blocks(p, scale),
        NativeV::Extrude(p, h) => match spec_polygon_blocks(p, scale) {
            Err(e) => Err(e),
            Ok(fp) => match scale_chk(h, scale) {
                Err(e) => Err(e),
                Ok(height) => layers_blocks(fp, height, p.pos.2, scale),
            },
        },
    }
}


/// The shapes of a scaled point list.
pub open spec fn pts_view(s: Seq<(i64, i64)>) -> Seq<(int, int)> {
    Seq::new(s.len(), |i: int| (s[i].0 as int, s[i].1 as int))
}

/// The shapes of an intersection list.
pub open spec fn ints_view(s: Seq<i64>) -> Seq<int> {
    Seq::new(s.len(), |i: int| s[i] as int)
}

/// Once scaling fails on a vertex, scaling the whole list fails.
proof fn lemma_scaled_prefix_err(points: Seq<(int, int)>, j: int, scale: int, e: RasterError)
    requires
        0 <= j <= points.len(),
        scaled_pts(points.subrange(0, j), scale) == Err::<Seq<(int, int)>, RasterError>(e),
    ensures
        scaled_pts(points, scale) == Err::<Seq<(int, int)>, RasterError>(e),
    decreases points.len() - j,
{
    if j < points.len() {
        assert(points.subrange(0, j + 1).drop_last() =~= points.subrange(0, j));
        lemma_scaled_prefix_err(points, j + 1, scale, e);
    } else {
        assert(points.subrange(0, points.len() as int) =~= points);
    }
}

/// Once a scanline prefix fails, the whole row fails.
proof fn lemma_row_prefix_err(
    inters: Seq<int>,
    x_from: int,
    x: int,
    x_to: int,
    y: int,
    pos: (int, int, int),
    scale: int,
    e: RasterError,
)
    requires
        x_from <= x <= x_to,
        row_blocks(inters, x_from, x, y, pos, scale) == Err::<Seq<BlockV>, RasterError>(e),
    ensures
        row_blocks(inters, x_from, x_to, y, pos, scale) == Err::<Seq<BlockV>, RasterError>(e),
    decreases x_to - x,
{
    if x < x_to {
        lemma_row_prefix_err(inters, x_from, x + 1, x_to, y, pos, scale, e);
    }
}

/// Once the scanlines up to `y` fail, all the scanlines fail.
proof fn lemma_rows_prefix_err(
    sp: Seq<(int, int)>,
    y_from: int,
    y: int,
    y_to: int,
    x_from: int,
    x_to: int,
    pos: (int, int, int),
    scale: int,
    e: RasterError,
)
    requires
        y_from <= y <= y_to,
        rows_blocks(sp, y_from, y, x_from, x_to, pos, scale) == Err::<Seq<BlockV>, RasterError>(
            e,
        ),
    ensures
        rows_blocks(sp, y_from, y_to, x_from, x_to, pos, scale) == Err::<
            Seq<BlockV>,
            RasterError,
        >(e),
    decreases y_to - y,
{
    if y < y_to {
        lemma_rows_prefix_err(sp, y_from, y + 1, y_to, x_from, x_to, pos, scale, e);
    }
}

/// Once a layer prefix fails, the whole layer fails.
proof fn lemma_layer_prefix_err(fp: Seq<BlockV>, j: int, i: int, posz: int, scale: int, e: RasterError)
    requires
        0 <= j <= fp.len(),
        layer_blocks(fp.subrange(0, j), i, posz, scale) == Err::<Seq<BlockV>, RasterError>(e),
    ensures
        layer_blocks(fp, i, posz, scale) == Err::<Seq<BlockV>, RasterError>(e),
    decreases fp.len() - j,
{
    if j < fp.len() {
        assert(fp.subrange(0, j + 1).drop_last() =~= fp.subrange(0, j));
        lemma_layer_prefix_err(fp, j + 1, i, posz, scale, e);
    } else {
        assert(fp.subrange(0, fp.len() as int) =~= fp);
    }
}

/// Once the layers up to `i` fail, all the layers fail.
proof fn lemma_layers_prefix_err(fp: Seq<BlockV>, i: int, count: int, posz: int, scale: int, e: RasterError)
    requires
        0 <= i <= count,
        layers_blocks(fp, i, posz, scale) == Err::<Seq<BlockV>, RasterError>(e),
    ensures
        layers_blocks(fp, count, posz, scale) == Err::<Seq<BlockV>, RasterError>(e),
    decreases count - i,
{
    if i < count {
        lemma_layers_prefix_err(fp, i + 1, count, posz, scale, e);
    }
}

/// The shapes concatenate as the sequences do.
proof fn lemma_blocks_view_concat(a: Seq<Block>, b: Seq<Block>, c: Seq<Block>)
    requires
        c =~= a + b,
    ensures
        blocks_view(c) =~= blocks_view(a) + blocks_view(b),
{
    lemma_blocks_view(a);
    lemma_blocks_view(b);
    lemma_blocks_view(c);
    assert forall|i: int| 0 <= i < c.len() implies blocks_view(c)[i] == (blocks_view(a)
        + blocks_view(b))[i] by {
        assert(blocks_view(c)[i] == c[i].deep());
        if i < a.len() {
            assert(c[i] == a[i]);
            assert(blocks_view(a)[i] == a[i].deep());
        } else {
            assert(c[i] == b[i - a.len()]);
            assert(blocks_view(b)[i - a.len()] == b[i - a.len()].deep());
        }
    }
}

/// The crossing x-coordinates of the first `k` edges with scanline `y`.
fn intersections(sp: &Vec<(i64, i64)>, y: i64, k: usize) -> (r: Result<Vec<i64>, RasterError>)
    requires
        k <= sp@.len(),
        sp@.len() >= 1,
    ensures
        match r {
            Ok(iv) => inters_upto(pts_view(sp@), y as int, k as int) == Ok::<
                Seq<int>,
                RasterError,
            >(ints_view(iv@)),
            Err(e) => inters_upto(pts_view(sp@), y as int, k as int) == Err::<
                Seq<int>,
                RasterError,
            >(e),
        },
    decreases k,
{
    if k == 0 {
        let empty_iv: Vec<i64> = Vec::new();
        proof {
            assert(ints_view(empty_iv@) =~= Seq::<int>::empty());
        }
        return Ok(empty_iv);
    }
    let mut pre = match intersections(sp, y, k - 1) {
        Ok(iv) => iv,
        Err(e) => {
            return Err(e);
        },
    };
    let p1 = if k - 1 == 0 {
        sp[sp.len() - 1]
    } else {
        sp[k - 2]
    };
    let p2 = sp[k - 1];
    if (p2.1 <= y && y < p1.1) || (p1.1 <= y && y < p2.1) {
        if p1.0 == p2.0 {
            let ghost pre0 = pre@;
            pre.push(p1.0);
            proof {
                assert(ints_view(pre@) =~= ints_view(pre0).push(p1.0 as int));
            }
            Ok(pre)
        } else {
            Err(RasterError::NonAxisAlignedEdge)
        }
    } else {
        Ok(pre)
    }
}

/// How many intersection x-coordinates lie at or left of `x`.
fn count_le_exec(inters: &Vec<i64>, x: i64) -> (c: usize)
    ensures
        c as int == count_le(ints_view(inters@), x as int),
{
    let n = inters.len();
    let mut c: usize = 0;
    let mut j: usize = 0;
    proof {
        assert(ints_view(inters@).subrange(0, 0) =~= Seq::<int>::empty());
    }
    while j < n
        invariant
            j <= n == inters@.len(),
            c <= j,
            c as int == count_le(ints_view(inters@).subrange(0, j as int), x as int),
        decreases n - j,
    {
        proof {
            let iv = ints_view(inters@);
            assert(iv.subrange(0, j + 1).drop_last() =~= iv.subrange(0, j as int));
            assert(iv.subrange(0, j + 1).last() == iv[j as int]);
        }
        if inters[j] <= x {
            c = c + 1;
        }
        j = j + 1;
    }
    proof {
        assert(ints_view(inters@).subrange(0, inters@.len() as int) =~= ints_view(inters@));
    }
    c
}

/// Rasterizes one polygon into its footprint blocks.
#[verifier::rlimit(80)]
fn polygon_blocks(p: &Polygon, scale: i32) -> (r: Result<Vec<Block>, RasterError>)
    ensures
        match r {
            Ok(bs) => spec_polygon_blocks(p.deep(), scale as int) == Ok::<
                Seq<BlockV>,
                RasterError,
            >(blocks_view(bs@)),
            Err(e) => spec_polygon_blocks(p.deep(), scale as int) == Err::<
                Seq<BlockV>,
                RasterError,
            >(e),
        },
{
    let ghost pv = p.deep().points;
    let n = p.0.len();
    if n == 0 {
        let empty_bs: Vec<Block> = Vec::new();
        proof {
            assert(blocks_view(empty_bs@) =~= Seq::<BlockV>::empty());
        }
        return Ok(empty_bs);
    }
    // Scale every vertex once.
    let mut sp: Vec<(i64, i64)> = Vec::new();
    let mut i: usize = 0;
    proof {
        assert(pv.subrange(0, 0) =~= Seq::<(int, int)>::empty());
        assert(pts_view(sp@) =~= Seq::<(int, int)>::empty());
    }
    while i < n
        invariant
            i <= n == p.0@.len(),
            pv == p.deep().points,
            pv.len() == n,
            sp@.len() == i,
            scaled_pts(pv.subrange(0, i as int), scale as int) == Ok::<
                Seq<(int, int)>,
                RasterError,
            >(pts_view(sp@)),
        decreases n - i,
    {
        let ghost sp0 = sp@;
        proof {
            assert(pv.subrange(0, i + 1).drop_last() =~= pv.subrange(0, i as int));
            assert(pv.subrange(0, i + 1).last() == pv[i as int]);
        }
        let x = match apply_scale(p.0[i].0, scale) {
            Ok(x) => x,
            Err(e) => {
                proof {
                    lemma_scaled_prefix_err(pv, i + 1, scale as int, e);
                }
                return Err(e);
            },
        };
        let y = match apply_scale(p.0[i].1, scale) {
            Ok(y) => y,
            Err(e) => {
                proof {
                    lemma_scaled_prefix_err(pv, i + 1, scale as int, e);
                }
                return Err(e);
            },
        };
        sp.push((x, y));
        proof {
            assert(pts_view(sp@) =~= pts_view(sp0).push((x as int, y as int)));
        }
        i = i + 1;
    }
    proof {
        assert(pv.subrange(0, n as int) =~= pv);
    }
    let ghost spv = pts_view(sp@);
    // The scaled bounding box.
    let mut xmin = sp[0].0;
    let mut xmax = sp[0].0;
    let mut ymin = sp[0].1;
    let mut ymax = sp[0].1;
    let mut j: usize = 1;
    proof {
        assert(xs_of(spv).subrange(0, 1) =~= seq![spv[0].0]);
        assert(ys_of(spv).subrange(0, 1) =~= seq![spv[0].1]);
    }
    while j < n
        invariant
            1 <= j <= n == sp@.len(),
            spv == pts_view(sp@),
            spv.len() == n,
            xmin as int == seq_min(xs_of(spv).subrange(0, j as int)),
            xmax as int == seq_max(xs_of(spv).subrange(0, j as int)),
            ymin as int == seq_min(ys_of(spv).subrange(0, j as int)),
            ymax as int == seq_max(ys_of(spv).subrange(0, j as int)),
        decreases n - j,
    {
        proof {
            assert(xs_of(spv).subrange(0, j + 1).drop_last() =~= xs_of(spv).subrange(
                0,
                j as int,
            ));
            assert(xs_of(spv).subrange(0, j + 1).last() == xs_of(spv)[j as int]);
            assert(ys_of(spv).subrange(0, j + 1).drop_last() =~= ys_of(spv).subrange(
                0,
                j as int,
            ));
            assert(ys_of(spv).subrange(0, j + 1).last() == ys_of(spv)[j as int]);
        }
        let (px, py) = sp[j];
        if px < xmin {
            xmin = px;
        }
        if px > xmax {
            xmax = px;
        }
        if py < ymin {
            ymin = py;
        }
        if py > ymax {
            ymax = py;
        }
        j = j + 1;
    }
    proof {
        assert(xs_of(spv).subrange(0, n as int) =~= xs_of(spv));
        assert(ys_of(spv).subrange(0, n as int) =~= ys_of(spv));
    }
    // The padded iteration ranges.
    let xlo = match xmin.checked_sub(1) {
        Some(v) => v,
        None => {
            return Err(RasterError::Range);
        },
    };
    let xhi = match xmax.checked_add(1) {
        Some(v) => v,
        None => {
            return Err(RasterError::Range);
        },
    };
    let ylo = match ymin.checked_sub(1) {
        Some(v) => v,
        None => {
            return Err(RasterError::Range);
        },
    };
    let yhi = match ymax.checked_add(1) {
        Some(v) => v,
        None => {
            return Err(RasterError::Range);
        },
    };
    let ghost posv = p.deep().pos;
    let mut out: Vec<Block> = Vec::new();
    let mut y = ylo;
    proof {
        assert(blocks_view(out@) =~= Seq::<BlockV>::empty());
    }
    proof {
        assert(spec_polygon_blocks(p.deep(), scale as int) == rows_blocks(
            spv,
            ylo as int,
            yhi as int,
            xlo as int,
            xhi as int,
            posv,
            scale as int,
        ));
    }
    while y < yhi
        invariant
            ylo <= y <= yhi,
            xlo <= xhi,
            n == sp@.len() >= 1,
            spv == pts_view(sp@),
            posv == p.deep().pos,
            spec_polygon_blocks(p.deep(), scale as int) == rows_blocks(
                spv,
                ylo as int,
                yhi as int,
                xlo as int,
                xhi as int,
                posv,
                scale as int,
            ),
            rows_blocks(spv, ylo as int, y as int, xlo as int, xhi as int, posv, scale as int)
                == Ok::<Seq<BlockV>, RasterError>(blocks_view(out@)),
        decreases yhi - y,
    {
        let iv = match intersections(&sp, y, sp.len()) {
            Ok(iv) => iv,
            Err(e) => {
                proof {
                    lemma_rows_prefix_err(
                        spv,
                        ylo as int,
                        y + 1,
                        yhi as int,
                        xlo as int,
                        xhi as int,
                        posv,
                        scale as int,
                        e,
                    );
                }
                return Err(e);
            },
        };
        let ghost ivv = ints_view(iv@);
        let mut rowbuf: Vec<Block> = Vec::new();
        let mut x = xlo;
        proof {
            assert(blocks_view(rowbuf@) =~= Seq::<BlockV>::empty());
        }
        while x < xhi
            invariant
                xlo <= x <= xhi,
                ylo <= y < yhi,
                n == sp@.len() >= 1,
                spv == pts_view(sp@),
                posv == p.deep().pos,
                ivv == ints_view(iv@),
                inters_upto(spv, y as int, spv.len() as int) == Ok::<Seq<int>, RasterError>(
                    ivv,
                ),
                spec_polygon_blocks(p.deep(), scale as int) == rows_blocks(
                    spv,
                    ylo as int,
                    yhi as int,
                    xlo as int,
                    xhi as int,
                    posv,
                    scale as int,
                ),
                rows_blocks(
                    spv,
                    ylo as int,
                    y as int,
                    xlo as int,
                    xhi as int,
                    posv,
                    scale as int,
                ) == Ok::<Seq<BlockV>, RasterError>(blocks_view(out@)),
                row_blocks(ivv, xlo as int, x as int, y as int, posv, scale as int) == Ok::<
                    Seq<BlockV>,
                    RasterError,
                >(blocks_view(rowbuf@)),
            decreases xhi - x,
        {
            let c = count_le_exec(&iv, x);
            if c % 2 == 1 {
                let offx = match apply_scale(p.2.0, scale) {
                    Ok(v) => v,
                    Err(e) => {
                        proof {
                            lemma_row_prefix_err(
                                ivv,
                                xlo as int,
                                x + 1,
                                xhi as int,
                                y as int,
                                posv,
                                scale as int,
                                e,
                            );
                            lemma_rows_prefix_err(
                                spv,
                                ylo as int,
                                y + 1,
                                yhi as int,
                                xlo as int,
                                xhi as int,
                                posv,
                                scale as int,
                                e,
                            );
                        }
                        return Err(e);
                    },
                };
                let offy = match apply_scale(p.2.1, scale) {
                    Ok(v) => v,
                    Err(e) => {
                        proof {
                            lemma_row_prefix_err(
                                ivv,
                                xlo as int,
                                x + 1,
                                xhi as int,
                                y as int,
                                posv,
                                scale as int,
                                e,
                            );
                            lemma_rows_prefix_err(
                                spv,
                                ylo as int,
                                y + 1,
                                yhi as int,
                                xlo as int,
                                xhi as int,
                                posv,
                                scale as int,
                                e,
                            );
                        }
                        return Err(e);
                    },
                };
                let bx = match x.checked_add(offx) {
                    Some(v) => v,
                    None => {
                        proof {
                            lemma_row_prefix_err(
                                ivv,
                                xlo as int,
                                x + 1,
                                xhi as int,
                                y as int,
                                posv,
                                scale as int,
                                RasterError::Range,
                            );
                            lemma_rows_prefix_err(
                                spv,
                                ylo as int,
                                y + 1,
                                yhi as int,
                                xlo as int,
                                xhi as int,
                                posv,
                                scale as int,
                                RasterError::Range,
                            );
                        }
                        return Err(RasterError::Range);
                    },
                };
                let by = match y.checked_add(offy) {
                    Some(v) => v,
                    None => {
                        proof {
                            lemma_row_prefix_err(
                                ivv,
                                xlo as int,
                                x + 1,
                                xhi as int,
                                y as int,
                                posv,
                                scale as int,
                                RasterError::Range,
                            );
                            lemma_rows_prefix_err(
                                spv,
                                ylo as int,
                                y + 1,
                                yhi as int,
                                xlo as int,
                                xhi as int,
                                posv,
                                scale as int,
                                RasterError::Range,
                            );
                        }
                        return Err(RasterError::Range);
                    },
                };
                let ghost rb0 = rowbuf@;
                rowbuf.push(Block { pos: (bx, by, 0), texture: None });
                proof {
                    assert(rowbuf@.drop_last() =~= rb0);
                    assert(blocks_view(rowbuf@) =~= blocks_view(rb0).push(
                        rowbuf@.last().deep(),
                    ));
                }
            }
            x = x + 1;
        }
        let ghost out0 = out@;
        let ghost rb = rowbuf@;
        let ghost rowv = blocks_view(rowbuf@);
        let mut rowbuf = rowbuf;
        out.append(&mut rowbuf);
        proof {
            lemma_blocks_view_concat(out0, rb, out@);
        }
        y = y + 1;
    }
    Ok(out)
}

/// Rasterizes one native value, appending its blocks onto `out`; on
/// failure `out` is unchanged.
pub fn process_native(native: &NativeValue, scale: i32, out: &mut Vec<Block>) -> (r: Result<
    (),
    RasterError,
>)
    ensures
        ({
            let sr = spec_rasterize(native.deep(), scale as int);
            match r {
                Ok(_) => sr is Ok && blocks_view(final(out)@) == blocks_view(old(out)@)
                    + sr->Ok_0,
                Err(e) => sr == Err::<Seq<BlockV>, RasterError>(e) && final(out)@ == old(out)@,
            }
        }),
{
    match native {
        NativeValue::Polygon(p) => {
            let mut bs = match polygon_blocks(p, scale) {
                Ok(bs) => bs,
                Err(e) => {
                    return Err(e);
                },
            };
            let ghost out0 = out@;
            let ghost bsq = bs@;
            out.append(&mut bs);
            proof {
                lemma_blocks_view_concat(out0, bsq, out@);
            }
            Ok(())
        },
        NativeValue::Extrude(p, h) => {
            let fp = match polygon_blocks(p, scale) {
                Ok(bs) => bs,
                Err(e) => {
                    return Err(e);
                },
            };
            let ghost fpv = blocks_view(fp@);
            proof {
                lemma_blocks_view(fp@);
            }
            let height = match apply_scale(*h, scale) {
                Ok(v) => v,
                Err(e) => {
                    return Err(e);
                },
            };
            let ghost posz = p.deep().pos.2;
            let mut acc: Vec<Block> = Vec::new();
            let mut i: i64 = 0;
            proof {
                assert(blocks_view(acc@) =~= Seq::<BlockV>::empty());
            }
            while i < height
                invariant
                    0 <= i,
                    height >= 0 ==> i <= height,
                    height < 0 ==> i == 0,
                    out@ == old(out)@,
                    native.deep() == NativeV::Extrude(p.deep(), h.value()),
                    spec_polygon_blocks(p.deep(), scale as int) == Ok::<
                        Seq<BlockV>,
                        RasterError,
                    >(fpv),
                    scale_chk(h.value(), scale as int) == Ok::<int, RasterError>(height as int),
                    fpv == blocks_view(fp@),
                    fpv.len() == fp@.len(),
                    forall|k: int| 0 <= k < fp@.len() ==> fpv[k] == #[trigger] fp@[k].deep(),
                    posz == p.deep().pos.2,
                    layers_blocks(fpv, i as int, posz, scale as int) == Ok::<
                        Seq<BlockV>,
                        RasterError,
                    >(blocks_view(acc@)),
                decreases height - i,
            {
                let mut layerbuf: Vec<Block> = Vec::new();
                let mut k: usize = 0;
                proof {
                    assert(fpv.subrange(0, 0) =~= Seq::<BlockV>::empty());
                    assert(blocks_view(layerbuf@) =~= Seq::<BlockV>::empty());
                }
                while k < fp.len()
                    invariant
                        k <= fp@.len(),
                        0 <= i < height,
                        out@ == old(out)@,
                        native.deep() == NativeV::Extrude(p.deep(), h.value()),
                        spec_polygon_blocks(p.deep(), scale as int) == Ok::<
                            Seq<BlockV>,
                            RasterError,
                        >(fpv),
                        scale_chk(h.value(), scale as int) == Ok::<int, RasterError>(
                            height as int,
                        ),
                        layers_blocks(fpv, i as int, posz, scale as int) == Ok::<
                            Seq<BlockV>,
                            RasterError,
                        >(blocks_view(acc@)),
                        fpv == blocks_view(fp@),
                        fpv.len() == fp@.len(),
                        forall|m: int| 0 <= m < fp@.len() ==> fpv[m] == #[trigger] fp@[
                            m
                        ].deep(),
                        posz == p.deep().pos.2,
                        layer_blocks(fpv.subrange(0, k as int), i as int, posz, scale as int)
                            == Ok::<Seq<BlockV>, RasterError>(blocks_view(layerbuf@)),
                    decreases fp@.len() - k,
                {
                    proof {
                        assert(fpv.subrange(0, k + 1).drop_last() =~= fpv.subrange(0, k as int));
                        assert(fpv.subrange(0, k + 1).last() == fpv[k as int]);
                        assert(fpv[k as int] == fp@[k as int].deep());
                    }
                    let offz = match apply_scale(p.2.2, scale) {
                        Ok(v) => v,
                        Err(e) => {
                            proof {
                                lemma_layer_prefix_err(fpv, k + 1, i as int, posz, scale as int, e);
                                lemma_layers_prefix_err(fpv, i + 1, height as int, posz, scale as int, e);
                            }
                            return Err(e);
                        },
                    };
                    let zd = match i.checked_add(offz) {
                        Some(v) => v,
                        None => {
                            proof {
                                lemma_layer_prefix_err(fpv, k + 1, i as int, posz, scale as int, RasterError::Range);
                                lemma_layers_prefix_err(fpv, i + 1, height as int, posz, scale as int, RasterError::Range);
                            }
                            return Err(RasterError::Range);
                        },
                    };
                    let b = &fp[k];
                    let z2 = match b.pos.2.checked_add(zd) {
                        Some(v) => v,
                        None => {
                            proof {
                                lemma_layer_prefix_err(fpv, k + 1, i as int, posz, scale as int, RasterError::Range);
                                lemma_layers_prefix_err(fpv, i + 1, height as int, posz, scale as int, RasterError::Range);
                            }
                            return Err(RasterError::Range);
                        },
                    };
                    let tex: Option<String> = match &b.texture {
                        Some(t) => Some(t.clone()),
                        None => None,
                    };
                    let ghost lb0 = layerbuf@;
                    layerbuf.push(Block { pos: (b.pos.0, b.pos.1, z2), texture: tex });
                    proof {
                        assert(layerbuf@.drop_last() =~= lb0);
                        assert(blocks_view(layerbuf@) =~= blocks_view(lb0).push(
                            layerbuf@.last().deep(),
                        ));
                    }
                    k = k + 1;
                }
                proof {
                    assert(fpv.subrange(0, fp@.len() as int) =~= fpv);
                }
                let ghost acc0 = acc@;
                let ghost lbq = layerbuf@;
                let mut layerbuf = layerbuf;
                acc.append(&mut layerbuf);
                proof {
                    lemma_blocks_view_concat(acc0, lbq, acc@);
                }
                i = i + 1;
            }
            let ghost out0 = out@;
            let ghost accq = acc@;
            let mut acc = acc;
            out.append(&mut acc);
            proof {
                lemma_blocks_view_concat(out0, accq, out@);
            }
            Ok(())
        },
    }
}


/// The views of a line list.
pub open spec fn lines_view(s: Seq<String>) -> Seq<Seq<char>> {
    Seq::new(s.len(), |i: int| s[i]@)
}

/// The coordinate triple a block is emitted with: the stored axes
/// permuted as (x, z, y), the origin added after the permutation.
pub open spec fn cmd_triple(b: BlockV, o: (int, int, int)) -> (int, int, int) {
    (b.pos.0 + o.0, b.pos.2 + o.2, b.pos.1 + o.1)
}

/// One placement command line, with the fixed default material.
pub open spec fn place_cmd(b: BlockV, o: (int, int, int)) -> Seq<char> {
    "/setblock "@ + crate::render::int_string(cmd_triple(b, o).0) + " "@
        + crate::render::int_string(cmd_triple(b, o).1) + " "@ + crate::render::int_string(
        cmd_triple(b, o).2,
    ) + " "@ + "birch_planks"@ + " replace"@
}

/// One destruction command line, with the void material.
pub open spec fn destroy_cmd(b: BlockV, o: (int, int, int)) -> Seq<char> {
    "/setblock "@ + crate::render::int_string(cmd_triple(b, o).0) + " "@
        + crate::render::int_string(cmd_triple(b, o).1) + " "@ + crate::render::int_string(
        cmd_triple(b, o).2,
    ) + " "@ + "air"@ + " replace"@
}

/// The origin an optional argument denotes: the origin itself, or zero.
pub open spec fn origin_of(o: Option<(i64, i64, i64)>) -> (int, int, int) {
    match o {
        Some(t) => (t.0 as int, t.1 as int, t.2 as int),
        None => (0, 0, 0),
    }
}

/// The placement commands of a block list; a textured block is
/// unsupported.
pub open spec fn spec_place_cmds(bs: Seq<BlockV>, o: (int, int, int)) -> Result<
    Seq<Seq<char>>,
    RasterError,
>
    decreases bs,
{
    if bs.len() == 0 {
        Ok(Seq::empty())
    } else {
        match spec_place_cmds(bs.drop_last(), o) {
            Err(e) => Err(e),
            Ok(pre) => {
                if bs.last().texture is Some {
                    Err(RasterError::Texture)
                } else {
                    Ok(pre.push(place_cmd(bs.last(), o)))
                }
            },
        }
    }
}

/// The destruction commands of a block list.
pub open spec fn spec_destroy_cmds(bs: Seq<BlockV>, o: (int, int, int)) -> Seq<Seq<char>>
    decreases bs,
{
    if bs.len() == 0 {
        Seq::empty()
    } else {
        spec_destroy_cmds(bs.drop_last(), o).push(destroy_cmd(bs.last(), o))
    }
}

/// Once a textured block appears, the placement commands fail.
proof fn lemma_place_prefix_err(bs: Seq<BlockV>, j: int, o: (int, int, int))
    requires
        0 <= j <= bs.len(),
        spec_place_cmds(bs.subrange(0, j), o) == Err::<Seq<Seq<char>>, RasterError>(
            RasterError::Texture,
        ),
    ensures
        spec_place_cmds(bs, o) == Err::<Seq<Seq<char>>, RasterError>(RasterError::Texture),
    decreases bs.len() - j,
{
    if j < bs.len() {
        assert(bs.subrange(0, j + 1).drop_last() =~= bs.subrange(0, j));
        lemma_place_prefix_err(bs, j + 1, o);
    } else {
        assert(bs.subrange(0, bs.len() as int) =~= bs);
    }
}

/// One command line's text.
fn build_cmd(b: &Block, o: (i64, i64, i64), material: &str) -> (r: String)
    ensures
        r@ == "/setblock "@ + crate::render::int_string(cmd_triple(b.deep(), (
            o.0 as int,
            o.1 as int,
            o.2 as int,
        )).0) + " "@ + crate::render::int_string(cmd_triple(b.deep(), (
            o.0 as int,
            o.1 as int,
            o.2 as int,
        )).1) + " "@ + crate::render::int_string(cmd_triple(b.deep(), (
            o.0 as int,
            o.1 as int,
            o.2 as int,
        )).2) + " "@ + material@ + " replace"@,
{
    let mut line = String::from_str("/setblock ");
    let sx = crate::render::int_to_string(b.pos.0 as i128 + o.0 as i128);
    line.append(sx.as_str());
    line.append(" ");
    let sz = crate::render::int_to_string(b.pos.2 as i128 + o.2 as i128);
    line.append(sz.as_str());
    line.append(" ");
    let sy = crate::render::int_to_string(b.pos.1 as i128 + o.1 as i128);
    line.append(sy.as_str());
    line.append(" ");
    line.append(material);
    line.append(" replace");
    proof {
        assert(line@ =~= "/setblock "@ + crate::render::int_string(b.deep().pos.0 + o.0 as int)
            + " "@ + crate::render::int_string(b.deep().pos.2 + o.2 as int) + " "@
            + crate::render::int_string(b.deep().pos.1 + o.1 as int) + " "@ + material@
            + " replace"@);
    }
    line
}

/// The placement commands for a block list: one `/setblock` line per
/// block, axes permuted, origin added, default material. A textured
/// block is unsupported.
pub fn blocks_to_cmds(blocks: &Vec<Block>, origin: Option<(i64, i64, i64)>) -> (r: Result<
    Vec<String>,
    RasterError,
>)
    ensures
        match r {
            Ok(cmds) => spec_place_cmds(blocks_view(blocks@), origin_of(origin)) == Ok::<
                Seq<Seq<char>>,
                RasterError,
            >(lines_view(cmds@)),
            Err(e) => spec_place_cmds(blocks_view(blocks@), origin_of(origin)) == Err::<
                Seq<Seq<char>>,
                RasterError,
            >(e),
        },
{
    let o: (i64, i64, i64) = match origin {
        Some(t) => t,
        None => (0, 0, 0),
    };
    let ghost bv = blocks_view(blocks@);
    let ghost ov = origin_of(origin);
    proof {
        lemma_blocks_view(blocks@);
    }
    let n = blocks.len();
    let mut out: Vec<String> = Vec::new();
    let mut i: usize = 0;
    proof {
        assert(bv.subrange(0, 0) =~= Seq::<BlockV>::empty());
        assert(lines_view(out@) =~= Seq::<Seq<char>>::empty());
    }
    while i < n
        invariant
            i <= n == blocks@.len(),
            bv == blocks_view(blocks@),
            bv.len() == n,
            forall|k: int| 0 <= k < n ==> bv[k] == #[trigger] blocks@[k].deep(),
            ov == origin_of(origin),
            o.0 as int == ov.0 && o.1 as int == ov.1 && o.2 as int == ov.2,
            spec_place_cmds(bv.subrange(0, i as int), ov) == Ok::<Seq<Seq<char>>, RasterError>(
                lines_view(out@),
            ),
        decreases n - i,
    {
        proof {
            assert(bv.subrange(0, i + 1).drop_last() =~= bv.subrange(0, i as int));
            assert(bv.subrange(0, i + 1).last() == bv[i as int]);
            assert(bv[i as int] == blocks@[i as int].deep());
        }
        match &blocks[i].texture {
            Some(_) => {
                proof {
                    lemma_place_prefix_err(bv, i + 1, ov);
                }
                return Err(RasterError::Texture);
            },
            None => (),
        }
        let line = build_cmd(&blocks[i], o, "birch_planks");
        let ghost out0 = out@;
        out.push(line);
        proof {
            assert(line@ =~= place_cmd(bv[i as int], ov));
            assert(lines_view(out@) =~= lines_view(out0).push(line@));
        }
        i = i + 1;
    }
    proof {
        assert(bv.subrange(0, n as int) =~= bv);
    }
    Ok(out)
}

/// The destruction commands for a block list: the same lines with the
/// void material and no texture concern.
pub fn blocks_to_destroys(blocks: &Vec<Block>, origin: Option<(i64, i64, i64)>) -> (r: Vec<
    String,
>)
    ensures
        spec_destroy_cmds(blocks_view(blocks@), origin_of(origin)) == lines_view(r@),
{
    let o: (i64, i64, i64) = match origin {
        Some(t) => t,
        None => (0, 0, 0),
    };
    let ghost bv = blocks_view(blocks@);
    let ghost ov = origin_of(origin);
    proof {
        lemma_blocks_view(blocks@);
    }
    let n = blocks.len();
    let mut out: Vec<String> = Vec::new();
    let mut i: usize = 0;
    proof {
        assert(bv.subrange(0, 0) =~= Seq::<BlockV>::empty());
        assert(lines_view(out@) =~= Seq::<Seq<char>>::empty());
    }
    while i < n
        invariant
            i <= n == blocks@.len(),
            bv == blocks_view(blocks@),
            bv.len() == n,
            forall|k: int| 0 <= k < n ==> bv[k] == #[trigger] blocks@[k].deep(),
            ov == origin_of(origin),
            o.0 as int == ov.0 && o.1 as int == ov.1 && o.2 as int == ov.2,
            spec_destroy_cmds(bv.subrange(0, i as int), ov) == lines_view(out@),
        decreases n - i,
    {
        proof {
            assert(bv.subrange(0, i + 1).drop_last() =~= bv.subrange(0, i as int));
            assert(bv.subrange(0, i + 1).last() == bv[i as int]);
            assert(bv[i as int] == blocks@[i as int].deep());
        }
        let line = build_cmd(&blocks[i], o, "air");
        let ghost out0 = out@;
        out.push(line);
        proof {
            assert(line@ =~= destroy_cmd(bv[i as int], ov));
            assert(lines_view(out@) =~= lines_view(out0).push(line@));
        }
        i = i + 1;
    }
    proof {
        assert(bv.subrange(0, n as int) =~= bv);
    }
    out
}

/// Law: rasterization is deterministic. The same native value at the
/// same scale always yields the same block sequence — two successful
/// rasterizations agree exactly.
pub proof fn lemma_rasterize_deterministic(
    nv: NativeV,
    scale: int,
    b1: Seq<BlockV>,
    b2: Seq<BlockV>,
)
    requires
        spec_rasterize(nv, scale) == Ok::<Seq<BlockV>, RasterError>(b1),
        spec_rasterize(nv, scale) == Ok::<Seq<BlockV>, RasterError>(b2),
    ensures
        b1 == b2,
{
}

/// Law: translating the origin commutes with emission. Emitting a block
/// with origin `(ox, oy, oz)` names the same coordinates as emitting it
/// with the zero origin and then adding `(ox, oz, oy)` component-wise to
/// the permuted triple.
pub proof fn lemma_origin_translation(b: BlockV, o: (int, int, int))
    ensures
        cmd_triple(b, o).0 == cmd_triple(b, (0, 0, 0)).0 + o.0,
        cmd_triple(b, o).1 == cmd_triple(b, (0, 0, 0)).1 + o.2,
        cmd_triple(b, o).2 == cmd_triple(b, (0, 0, 0)).2 + o.1,
{
}

} // verus!
