//! The two back ends over an evaluation's results: the solid-modeling
//! script, and the pair of block placement / destruction command texts.

use vstd::prelude::*;
use vstd::string::StringExecFns;

use crate::eval::EvaluatedValue;
use crate::eval::Val;
use crate::eval::deep_vals;
use crate::eval::lemma_deep_vals;
use crate::eval::val_debug;
use crate::eval::value_debug_string;
use crate::mc::Block;
use crate::mc::BlockV;
use crate::mc::RasterError;
use crate::mc::blocks_view;
use crate::mc::lines_view;
use crate::mc::origin_of;
use crate::mc::spec_place_cmds;
use crate::mc::spec_destroy_cmds;
use crate::mc::spec_rasterize;
use crate::scad::spec_scad_native;

verus! {

/// The script lines of an evaluation's results: for each native value,
/// one commentary line with its debug text, then its statement.
pub open spec fn scad_doc(vals: Seq<Val>) -> Seq<Seq<char>>
    decreases vals,
{
    if vals.len() == 0 {
        Seq::empty()
    } else {
        scad_doc(vals.drop_last()) + (match vals.last() {
            Val::Native(nv) => seq!["// "@ + val_debug(vals.last()), spec_scad_native(nv)],
            _ => Seq::<Seq<char>>::empty(),
        })
    }
}

/// Lines joined by a newline.
pub open spec fn join_nl(lines: Seq<Seq<char>>) -> Seq<char>
    decreases lines,
{
    if lines.len() == 0 {
        Seq::empty()
    } else if lines.len() == 1 {
        lines[0]
    } else {
        join_nl(lines.drop_last()) + "\n"@ + lines.last()
    }
}

/// Joins the lines with newlines.
fn join_nl_exec(lines: &Vec<String>) -> (r: String)
    ensures
        r@ == join_nl(lines_view(lines@)),
{
    let ghost lv = lines_view(lines@);
    let mut out = String::new();
    let n = lines.len();
    let mut i: usize = 0;
    proof {
        assert(join_nl(lv.subrange(0, 0)) =~= Seq::<char>::empty());
        assert(out@ =~= join_nl(lv.subrange(0, 0)));
    }
    while i < n
        invariant
            i <= n == lines@.len(),
            lv == lines_view(lines@),
            lv.len() == n,
            out@ == join_nl(lv.subrange(0, i as int)),
        decreases n - i,
    {
        if i > 0 {
            out.append("\n");
        }
        out.append(lines[i].as_str());
        proof {
            let pre = lv.subrange(0, i + 1);
            assert(pre.drop_last() =~= lv.subrange(0, i as int));
            assert(pre.last() == lv[i as int]);
            assert(lv[i as int] == lines@[i as int]@);
            assert(out@ =~= join_nl(pre));
        }
        i = i + 1;
    }
    proof {
        assert(lv.subrange(0, n as int) =~= lv);
    }
    out
}

/// The solid-modeling script for an evaluation's results, newline-joined.
pub fn process_out_scad(input: &Vec<EvaluatedValue>) -> (r: String)
    ensures
        r@ == join_nl(scad_doc(deep_vals(input@))),
{
    let ghost dv = deep_vals(input@);
    proof {
        lemma_deep_vals(input@);
    }
    let n = input.len();
    let mut scad_out: Vec<String> = Vec::new();
    let mut i: usize = 0;
    proof {
        assert(dv.subrange(0, 0) =~= Seq::<Val>::empty());
        assert(scad_doc(dv.subrange(0, 0)) =~= Seq::<Seq<char>>::empty());
        assert(lines_view(scad_out@) =~= Seq::<Seq<char>>::empty());
    }
    while i < n
        invariant
            i <= n == input@.len(),
            dv == deep_vals(input@),
            dv.len() == n,
            forall|k: int| 0 <= k < n ==> dv[k] == #[trigger] input@[k].deep(),
            scad_doc(dv.subrange(0, i as int)) == lines_view(scad_out@),
        decreases n - i,
    {
        let ghost out0 = scad_out@;
        proof {
            assert(dv.subrange(0, i + 1).drop_last() =~= dv.subrange(0, i as int));
            assert(dv.subrange(0, i + 1).last() == dv[i as int]);
            assert(dv[i as int] == input@[i as int].deep());
        }
        match &input[i] {
            EvaluatedValue::Native(nv) => {
                let mut comment = String::from_str("// ");
                let dbg = value_debug_string(&input[i]);
                comment.append(dbg.as_str());
                let stmt = crate::scad::process_native(nv);
                scad_out.push(comment);
                scad_out.push(stmt);
                proof {
                    assert(lines_view(scad_out@) =~= scad_doc(dv.subrange(0, i + 1)));
                }
            },
            _ => {
                proof {
                    assert(lines_view(scad_out@) =~= scad_doc(dv.subrange(0, i + 1)));
                }
            },
        }
        i = i + 1;
    }
    proof {
        assert(dv.subrange(0, n as int) =~= dv);
    }
    join_nl_exec(&scad_out)
}

/// The blocks of every native value among the results, in order.
pub open spec fn gather_blocks(vals: Seq<Val>, scale: int) -> Result<Seq<BlockV>, RasterError>
    decreases vals,
{
    if vals.len() == 0 {
        Ok(Seq::empty())
    } else {
        match gather_blocks(vals.drop_last(), scale) {
            Err(e) => Err(e),
            Ok(pre) => match vals.last() {
                Val::Native(nv) => match spec_rasterize(nv, scale) {
                    Err(e) => Err(e),
                    Ok(bs) => Ok(pre + bs),
                },
                _ => Ok(pre),
            },
        }
    }
}

/// Once one native value fails to rasterize, the gathering fails.
proof fn lemma_gather_prefix_err(vals: Seq<Val>, j: int, scale: int, e: RasterError)
    requires
        0 <= j <= vals.len(),
        gather_blocks(vals.subrange(0, j), scale) == Err::<Seq<BlockV>, RasterError>(e),
    ensures
        gather_blocks(vals, scale) == Err::<Seq<BlockV>, RasterError>(e),
    decreases vals.len() - j,
{
    if j < vals.len() {
        assert(vals.subrange(0, j + 1).drop_last() =~= vals.subrange(0, j));
        lemma_gather_prefix_err(vals, j + 1, scale, e);
    } else {
        assert(vals.subrange(0, vals.len() as int) =~= vals);
    }
}

/// The pair of command texts for an evaluation's results: every native
/// value rasterized at `scale`, then the placement commands and the
/// destruction commands, each newline-joined.
pub fn process_out_mc(input: &Vec<EvaluatedValue>, scale: i32, origin: Option<(i64, i64, i64)>)
    -> (r: Result<(String, String), RasterError>)
    ensures
        ({
            let gb = gather_blocks(deep_vals(input@), scale as int);
            match r {
                Ok(texts) => gb is Ok && spec_place_cmds(gb->Ok_0, origin_of(origin)) is Ok
                    && texts.0@ == join_nl(spec_place_cmds(gb->Ok_0, origin_of(origin))->Ok_0)
                    && texts.1@ == join_nl(spec_destroy_cmds(gb->Ok_0, origin_of(origin))),
                Err(e) => gb == Err::<Seq<BlockV>, RasterError>(e) || (gb is Ok
                    && spec_place_cmds(gb->Ok_0, origin_of(origin)) == Err::<
                    Seq<Seq<char>>,
                    RasterError,
                >(e)),
            }
        }),
{
    let ghost dv = deep_vals(input@);
    proof {
        lemma_deep_vals(input@);
    }
    let n = input.len();
    let mut mc_out: Vec<Block> = Vec::new();
    let mut i: usize = 0;
    proof {
        assert(dv.subrange(0, 0) =~= Seq::<Val>::empty());
        assert(blocks_view(mc_out@) =~= Seq::<BlockV>::empty());
    }
    while i < n
        invariant
            i <= n == input@.len(),
            dv == deep_vals(input@),
            dv.len() == n,
            forall|k: int| 0 <= k < n ==> dv[k] == #[trigger] input@[k].deep(),
            gather_blocks(dv.subrange(0, i as int), scale as int) == Ok::<
                Seq<BlockV>,
                RasterError,
            >(blocks_view(mc_out@)),
        decreases n - i,
    {
        proof {
            assert(dv.subrange(0, i + 1).drop_last() =~= dv.subrange(0, i as int));
            assert(dv.subrange(0, i + 1).last() == dv[i as int]);
            assert(dv[i as int] == input@[i as int].deep());
        }
        match &input[i] {
            EvaluatedValue::Native(nv) => {
                match crate::mc::process_native(nv, scale, &mut mc_out) {
                    Ok(_) => (),
                    Err(e) => {
                        proof {
                            lemma_gather_prefix_err(dv, i + 1, scale as int, e);
                        }
                        return Err(e);
                    },
                }
            },
            _ => (),
        }
        i = i + 1;
    }
    proof {
        assert(dv.subrange(0, n as int) =~= dv);
    }
    let cmds = match crate::mc::blocks_to_cmds(&mc_out, origin) {
        Ok(c) => c,
        Err(e) => {
            return Err(e);
        },
    };
    let destroys = crate::mc::blocks_to_destroys(&mc_out, origin);
    Ok((join_nl_exec(&cmds), join_nl_exec(&destroys)))
}

} // verus!
