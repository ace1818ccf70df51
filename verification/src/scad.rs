//! The solid-modeling statement for a native geometric value: a pure
//! formatter from a polygon or extrusion to one script line.

use vstd::prelude::*;
use vstd::string::StringExecFns;

use crate::eval::NativeValue;
use crate::eval::NativeV;
use crate::eval::Polygon;
use crate::eval::PolyV;
use crate::render::num_string;
use crate::render::num_to_string;

verus! {

/// The point list text: `[x, y]` items, comma-separated.
pub open spec fn scad_points(pts: Seq<(int, int)>) -> Seq<char>
    decreases pts,
{
    if pts.len() == 0 {
        Seq::empty()
    } else if pts.len() == 1 {
        "["@ + num_string(pts[0].0) + ", "@ + num_string(pts[0].1) + "]"@
    } else {
        scad_points(pts.drop_last()) + ", "@ + ("["@ + num_string(pts.last().0) + ", "@
            + num_string(pts.last().1) + "]"@)
    }
}

/// The polygon statement: a translation to the origin offset, then the
/// point list.
pub open spec fn scad_polygon(p: PolyV) -> Seq<char> {
    "translate(["@ + num_string(p.pos.0) + ","@ + num_string(p.pos.1) + ","@ + num_string(
        p.pos.2,
    ) + "]) polygon(points=["@ + scad_points(p.points) + "]);"@
}

/// The statement of a native value: a polygon statement, or a linear
/// extrusion wrapping one.
pub open spec fn spec_scad_native(nv: NativeV) -> Seq<char> {
    match nv {
        NativeV::Polygon(p) => scad_polygon(p),
        NativeV::Extrude(p, h) => "translate([0, 0, "@ + num_string(p.pos.2)
            + "]) linear_extrude(height = "@ + num_string(h)
            + ", center = false, twist = 0, scale = 1.0) "@ + scad_polygon(p),
    }
}

/// Writes the polygon statement onto `out`.
fn append_scad_polygon(out: &mut String, p: &Polygon)
    ensures
        final(out)@ == old(out)@ + scad_polygon(p.deep()),
{
    out.append("translate([");
    let s0 = num_to_string(&p.2.0);
    out.append(s0.as_str());
    out.append(",");
    let s1 = num_to_string(&p.2.1);
    out.append(s1.as_str());
    out.append(",");
    let s2 = num_to_string(&p.2.2);
    out.append(s2.as_str());
    out.append("]) polygon(points=[");
    let ghost pts = p.deep().points;
    let ghost base = out@;
    let n = p.0.len();
    let mut i: usize = 0;
    proof {
        assert(scad_points(pts.subrange(0, 0)) =~= Seq::<char>::empty());
        assert(out@ =~= base + scad_points(pts.subrange(0, 0)));
    }
    while i < n
        invariant
            i <= n == p.0@.len(),
            pts == p.deep().points,
            pts.len() == n,
            out@ == base + scad_points(pts.subrange(0, i as int)),
        decreases n - i,
    {
        if i > 0 {
            out.append(", ");
        }
        out.append("[");
        let sx = num_to_string(&p.0[i].0);
        out.append(sx.as_str());
        out.append(", ");
        let sy = num_to_string(&p.0[i].1);
        out.append(sy.as_str());
        out.append("]");
        proof {
            let pre = pts.subrange(0, i + 1);
            assert(pre.drop_last() =~= pts.subrange(0, i as int));
            assert(pre.last() == pts[i as int]);
            assert(pts[i as int] == (p.0@[i as int].0.value(), p.0@[i as int].1.value()));
            assert(out@ =~= base + scad_points(pre));
        }
        i = i + 1;
    }
    proof {
        assert(pts.subrange(0, n as int) =~= pts);
    }
    out.append("]);");
    proof {
        assert(out@ =~= old(out)@ + scad_polygon(p.deep()));
    }
}

/// The solid-modeling statement of a native value.
pub fn process_native(native: &NativeValue) -> (r: String)
    ensures
        r@ == spec_scad_native(native.deep()),
{
    let mut out = String::new();
    match native {
        NativeValue::Polygon(p) => {
            append_scad_polygon(&mut out, p);
            proof {
                assert(out@ =~= spec_scad_native(native.deep()));
            }
        },
        NativeValue::Extrude(p, h) => {
            out.append("translate([0, 0, ");
            let sz = num_to_string(&p.2.2);
            out.append(sz.as_str());
            out.append("]) linear_extrude(height = ");
            let sh = num_to_string(h);
            out.append(sh.as_str());
            out.append(", center = false, twist = 0, scale = 1.0) ");
            append_scad_polygon(&mut out, p);
            proof {
                assert(out@ =~= spec_scad_native(native.deep()));
            }
        },
    }
    out
}

} // verus!
