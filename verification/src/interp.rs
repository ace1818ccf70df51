//! The evaluator: a tree walk over parsed values against a mutable
//! environment, with the two special forms (`set`, `fn`), user-defined
//! function calls, and the built-in functions.
//!
//! The whole evaluation is specified by a ghost interpreter over value
//! shapes; the executable evaluator mirrors it step for step. A fuel
//! budget bounds the nesting depth, standing for the call-stack limit:
//! the budget is so large that no real program exhausts it.

use vstd::prelude::*;
use vstd::string::StringExecFns;
use vstd::string::StringExecFnsIsAscii;

use crate::eval::EnvV;
use crate::eval::env_set_local;
use crate::eval::params_view;
use crate::eval::str_eq;
use crate::eval::assoc_get_func;
use crate::eval::EvalEnvironment;
use crate::eval::EvalError;
use crate::eval::EvalFunction;
use crate::eval::EvaluatedValue;
use crate::eval::LispFunction;
use crate::eval::NativeValue;
use crate::eval::Polygon;
use crate::eval::deep_vals;
use crate::eval::lemma_deep_vals;
use crate::eval::values_eq;
use crate::eval::value_copy;
use crate::eval::ErrV;
use crate::eval::Fatal;
use crate::eval::FuncV;
use crate::eval::LispV;
use crate::eval::NativeOp;
use crate::eval::NativeV;
use crate::eval::PolyV;
use crate::eval::Val;
use crate::eval::lookup_var;
use crate::eval::print_line;
use crate::eval::spec_cast_number;
use crate::eval::spec_pop;
use crate::num::MICRO;
use crate::num::Num;
use crate::num::floor_index_of;
use crate::parse::SExpression;
use crate::parse::Value;
use crate::parse::ValueV;
use crate::parse::deep_body;
use crate::parse::lemma_deep_body;

verus! {

/// The evaluator's depth budget: far beyond any real nesting.
pub const EVAL_FUEL: u64 = u64::MAX;

/// Truthiness as the conditional reads it: vectors are always true.
pub open spec fn spec_truthy_cond(v: Val) -> Result<bool, ErrV> {
    match v {
        Val::Nil => Ok(false),
        Val::True => Ok(true),
        Val::Number(n) => Ok(n != 0),
        Val::Vector(_) => Ok(true),
        Val::Native(_) => Err(ErrV::Fatal(Fatal::UnsupportedNative)),
    }
}

/// Truthiness as `==` reads it: an empty vector is false.
pub open spec fn spec_truthy_eq(v: Val) -> Result<bool, ErrV> {
    match v {
        Val::Nil => Ok(false),
        Val::True => Ok(true),
        Val::Number(n) => Ok(n != 0),
        Val::Vector(items) => Ok(items.len() != 0),
        Val::Native(_) => Err(ErrV::Fatal(Fatal::UnsupportedNative)),
    }
}

/// The cross-type equality of the `==` built-in: zero and the empty
/// vector are nil-like; vectors compare element-wise; native values
/// compare under no operator.
pub open spec fn spec_eq_semantics(a: Val, b: Val) -> Result<bool, ErrV> {
    match a {
        Val::Nil => match spec_truthy_eq(b) {
            Ok(t) => Ok(!t),
            Err(e) => Err(e),
        },
        Val::True => spec_truthy_eq(b),
        Val::Number(n) => match b {
            Val::Nil => Ok(n == 0),
            Val::True => Ok(n != 0),
            Val::Number(m) => Ok(n == m),
            Val::Vector(v) => Ok(v.len() == 0 && n == 0),
            Val::Native(_) => Err(ErrV::Fatal(Fatal::UnsupportedNative)),
        },
        Val::Vector(v1) => match b {
            Val::Nil => Ok(v1.len() == 0),
            Val::True => Ok(v1.len() != 0),
            Val::Number(n) => Ok(n == 0 && v1.len() == 0),
            Val::Vector(v2) => Ok(v1 == v2),
            Val::Native(_) => Err(ErrV::Fatal(Fatal::UnsupportedNative)),
        },
        Val::Native(_) => Err(ErrV::Fatal(Fatal::UnsupportedNative)),
    }
}

/// The numbers of a vector's items; an item of any other kind fails.
pub open spec fn spec_nums_of(items: Seq<Val>) -> Result<Seq<int>, ErrV>
    decreases items,
{
    if items.len() == 0 {
        Ok(Seq::empty())
    } else {
        match spec_nums_of(items.drop_last()) {
            Err(e) => Err(e),
            Ok(pre) => match items.last() {
                Val::Number(n) => Ok(pre.push(n)),
                _ => Err(ErrV::Fatal(Fatal::Type)),
            },
        }
    }
}

/// The origin offset read from `CURRENT_POSITION`: a vector of at least
/// three numbers; its first three are the offset.
pub open spec fn spec_cur_pos(v: Option<Val>) -> Result<(int, int, int), ErrV> {
    match v {
        Some(Val::Vector(items)) => match spec_nums_of(items) {
            Err(e) => Err(e),
            Ok(nums) => if nums.len() >= 3 {
                Ok((nums[0], nums[1], nums[2]))
            } else {
                Err(ErrV::Fatal(Fatal::Type))
            },
        },
        _ => Err(ErrV::Fatal(Fatal::Type)),
    }
}

/// The point-index order argument: a vector of numbers, each floored to
/// an index.
pub open spec fn spec_order_of(v: Val) -> Result<Seq<int>, ErrV> {
    match v {
        Val::Vector(items) => match spec_nums_of(items) {
            Err(e) => Err(e),
            Ok(nums) => Ok(Seq::new(nums.len(), |i: int| floor_index_of(nums[i]))),
        },
        _ => Err(ErrV::Fatal(Fatal::Type)),
    }
}

/// One polygon point: a vector whose first two items are numbers.
pub open spec fn spec_point_of(v: Val) -> Result<(int, int), ErrV> {
    match v {
        Val::Vector(items) => {
            if items.len() < 2 {
                Err(ErrV::Fatal(Fatal::Type))
            } else {
                match (items[0], items[1]) {
                    (Val::Number(x), Val::Number(y)) => Ok((x, y)),
                    _ => Err(ErrV::Fatal(Fatal::Type)),
                }
            }
        },
        _ => Err(ErrV::Fatal(Fatal::Type)),
    }
}

/// The points of a point-vector sequence.
pub open spec fn spec_points_seq(items: Seq<Val>) -> Result<Seq<(int, int)>, ErrV>
    decreases items,
{
    if items.len() == 0 {
        Ok(Seq::empty())
    } else {
        match spec_points_seq(items.drop_last()) {
            Err(e) => Err(e),
            Ok(pre) => match spec_point_of(items.last()) {
                Ok(p) => Ok(pre.push(p)),
                Err(e) => Err(e),
            },
        }
    }
}

/// The polygon's points argument: a vector of at least three points.
pub open spec fn spec_points_of(v: Val) -> Result<Seq<(int, int)>, ErrV> {
    match v {
        Val::Vector(items) => {
            if items.len() < 3 {
                Err(ErrV::Fatal(Fatal::Arity))
            } else {
                spec_points_seq(items)
            }
        },
        _ => Err(ErrV::Fatal(Fatal::Type)),
    }
}

/// The parameter list of a `fn` form: each item a bare name, or a pair
/// of a name and a default expression.
pub open spec fn spec_parse_params(items: Seq<ValueV>) -> Result<
    Seq<(Seq<char>, Option<ValueV>)>,
    ErrV,
>
    decreases items,
{
    if items.len() == 0 {
        Ok(Seq::empty())
    } else {
        match spec_parse_params(items.drop_last()) {
            Err(e) => Err(e),
            Ok(pre) => match items.last() {
                ValueV::Identifier(n) => Ok(pre.push((n, None))),
                ValueV::SExpression(inner) => {
                    if inner.len() != 2 {
                        Err(ErrV::Fatal(Fatal::Arity))
                    } else {
                        match inner[0] {
                            ValueV::Identifier(n) => Ok(pre.push((n, Some(inner[1])))),
                            _ => Err(ErrV::Fatal(Fatal::Type)),
                        }
                    }
                },
                _ => Err(ErrV::Fatal(Fatal::Type)),
            },
        }
    }
}

/// The `fn` special form: defines a global function and yields nil.
pub open spec fn spec_eval_fndef(b: Seq<ValueV>, env: EnvV) -> (Result<Val, ErrV>, EnvV) {
    if b.len() < 2 {
        (Err(ErrV::Fatal(Fatal::Arity)), env)
    } else {
        match b[1] {
            ValueV::Identifier(name) => {
                if b.len() < 3 {
                    (Err(ErrV::Fatal(Fatal::Arity)), env)
                } else {
                    match b[2] {
                        ValueV::SExpression(items) => match spec_parse_params(items) {
                            Err(e) => (Err(e), env),
                            Ok(params) => (
                                Ok(Val::Nil),
                                EnvV {
                                    functions: env.functions.insert(
                                        name,
                                        FuncV::Lisp(
                                            LispV { params, body: b.subrange(3, b.len() as int) },
                                        ),
                                    ),
                                    ..env
                                },
                            ),
                        },
                        _ => (Err(ErrV::Fatal(Fatal::Type)), env),
                    }
                }
            },
            _ => (Err(ErrV::Fatal(Fatal::Type)), env),
        }
    }
}

/// One expression: a number is itself; an identifier is looked up,
/// locals innermost first, then globals; a group is a special form, a
/// function call, or a vector literal.
pub open spec fn spec_eval_expr(e: ValueV, env: EnvV, fuel: nat) -> (Result<Val, ErrV>, EnvV)
    decreases fuel, 0int, 2int,
{
    if fuel == 0 {
        (Err(ErrV::Fatal(Fatal::Depth)), env)
    } else {
        match e {
            ValueV::Number(n) => (Ok(Val::Number(n)), env),
            ValueV::Identifier(name) => match lookup_var(env, name) {
                Some(v) => (Ok(v), env),
                None => (Err(ErrV::Fatal(Fatal::UnresolvedIdentifier)), env),
            },
            ValueV::SExpression(b) => {
                if b.len() > 0 && b[0] == ValueV::Identifier("set"@) {
                    spec_eval_set(b, env, fuel)
                } else if b.len() > 0 && b[0] == ValueV::Identifier("fn"@) {
                    spec_eval_fndef(b, env)
                } else if b.len() > 0 && (b[0] is Identifier) && env.functions.contains_key(
                    b[0]->Identifier_0,
                ) {
                    spec_call(
                        env.functions[b[0]->Identifier_0],
                        b.drop_first(),
                        env,
                        (fuel - 1) as nat,
                    )
                } else {
                    let r = spec_eval_seq(b, env, (fuel - 1) as nat);
                    match r.0 {
                        Ok(vals) => (Ok(Val::Vector(vals)), r.1),
                        Err(e2) => (Err(e2), r.1),
                    }
                }
            },
        }
    }
}

/// The `set` special form: binds an identifier globally, yields nil.
pub open spec fn spec_eval_set(b: Seq<ValueV>, env: EnvV, fuel: nat) -> (Result<Val, ErrV>, EnvV)
    decreases fuel, 0int, 1int,
{
    if fuel == 0 {
        (Err(ErrV::Fatal(Fatal::Depth)), env)
    } else if b.len() != 3 {
        (Err(ErrV::Fatal(Fatal::Arity)), env)
    } else {
        match b[1] {
            ValueV::Identifier(name) => {
                let r = spec_eval_expr(b[2], env, (fuel - 1) as nat);
                match r.0 {
                    Err(e) => (Err(e), r.1),
                    Ok(v) => (
                        Ok(Val::Nil),
                        EnvV { variables: r.1.variables.insert(name, v), ..r.1 },
                    ),
                }
            },
            other => (Err(ErrV::Unexpected(other)), env),
        }
    }
}

/// Each expression in order, collecting every value.
pub open spec fn spec_eval_seq(es: Seq<ValueV>, env: EnvV, fuel: nat) -> (Result<Seq<Val>, ErrV>, EnvV)
    decreases fuel, es.len(), 1int,
{
    if es.len() == 0 {
        (Ok(Seq::empty()), env)
    } else {
        let r = spec_eval_expr(es[0], env, fuel);
        match r.0 {
            Err(e) => (Err(e), r.1),
            Ok(v) => {
                let r2 = spec_eval_seq(es.drop_first(), r.1, fuel);
                match r2.0 {
                    Ok(rest) => (Ok(seq![v] + rest), r2.1),
                    Err(e) => (Err(e), r2.1),
                }
            },
        }
    }
}

/// Each expression in order; the last one's value, or nil for none.
pub open spec fn spec_eval_body(es: Seq<ValueV>, env: EnvV, fuel: nat) -> (Result<Val, ErrV>, EnvV)
    decreases fuel, es.len(), 1int,
{
    if es.len() == 0 {
        (Ok(Val::Nil), env)
    } else {
        let r = spec_eval_expr(es[0], env, fuel);
        match r.0 {
            Err(e) => (Err(e), r.1),
            Ok(v) => if es.len() == 1 {
                (Ok(v), r.1)
            } else {
                spec_eval_body(es.drop_first(), r.1, fuel)
            },
        }
    }
}

/// Binds parameters in order: the evaluated argument if supplied, else
/// the evaluated default, else nil with a diagnostic line.
pub open spec fn spec_bind_params(
    params: Seq<(Seq<char>, Option<ValueV>)>,
    args: Seq<ValueV>,
    i: int,
    env: EnvV,
    fuel: nat,
) -> (Option<ErrV>, EnvV)
    decreases fuel, params.len() - i, 1int,
{
    if i < 0 || i >= params.len() {
        (None, env)
    } else {
        let r: (Result<Val, ErrV>, EnvV) = if i < args.len() {
            spec_eval_expr(args[i], env, fuel)
        } else {
            match params[i].1 {
                Some(d) => spec_eval_expr(d, env, fuel),
                None => (
                    Ok(Val::Nil),
                    EnvV {
                        output: env.output.push("missing argument with no default value"@),
                        ..env
                    },
                ),
            }
        };
        match r.0 {
            Err(e) => (Some(e), r.1),
            Ok(v) => spec_bind_params(
                params,
                args,
                i + 1,
                env_set_local(r.1, params[i].0, v),
                fuel,
            ),
        }
    }
}

/// Sums (or subtracts) the cast values of the remaining arguments onto
/// `acc`; with exactly one argument, `-` negates it.
pub open spec fn spec_arith(
    args: Seq<ValueV>,
    i: int,
    acc: int,
    env: EnvV,
    fuel: nat,
    sub: bool,
) -> (Result<Val, ErrV>, EnvV)
    decreases fuel, args.len() - i, 1int,
{
    if i < 0 || i >= args.len() {
        if sub && args.len() == 1 {
            if -acc < i64::MIN || -acc > i64::MAX {
                (Err(ErrV::Fatal(Fatal::Overflow)), env)
            } else {
                (Ok(Val::Number(-acc)), env)
            }
        } else {
            (Ok(Val::Number(acc)), env)
        }
    } else {
        let r = spec_eval_expr(args[i], env, fuel);
        match r.0 {
            Err(e) => (Err(e), r.1),
            Ok(v) => match spec_cast_number(v) {
                Err(e) => (Err(e), r.1),
                Ok(x) => {
                    let s = if sub {
                        acc - x
                    } else {
                        acc + x
                    };
                    if s < i64::MIN || s > i64::MAX {
                        (Err(ErrV::Fatal(Fatal::Overflow)), r.1)
                    } else {
                        spec_arith(args, i + 1, s, r.1, fuel, sub)
                    }
                },
            },
        }
    }
}

/// A built-in function applied to unevaluated argument expressions.
pub open spec fn spec_native(op: NativeOp, args: Seq<ValueV>, env: EnvV, fuel: nat) -> (
    Result<Val, ErrV>,
    EnvV,
)
    decreases fuel, 0int, 0int,
{
    if fuel == 0 {
        (Err(ErrV::Fatal(Fatal::Depth)), env)
    } else {
    match op {
        NativeOp::Print => {
            let r = spec_eval_seq(args, env, (fuel - 1) as nat);
            match r.0 {
                Err(e) => (Err(e), r.1),
                Ok(vals) => (
                    Ok(Val::Nil),
                    EnvV { output: r.1.output.push(print_line(vals)), ..r.1 },
                ),
            }
        },
        NativeOp::Add | NativeOp::Sub => {
            let sub = op is Sub;
            if args.len() == 0 {
                (Err(ErrV::Fatal(Fatal::Arity)), env)
            } else {
                let r = spec_eval_expr(args[0], env, (fuel - 1) as nat);
                match r.0 {
                    Err(e) => (Err(e), r.1),
                    Ok(v) => match spec_cast_number(v) {
                        Err(e) => (Err(e), r.1),
                        Ok(x) => spec_arith(args, 1, x, r.1, (fuel - 1) as nat, sub),
                    },
                }
            }
        },
        NativeOp::Cond => {
            if args.len() > 3 || args.len() == 0 {
                (Err(ErrV::Fatal(Fatal::Arity)), env)
            } else {
                let r = spec_eval_expr(args[0], env, (fuel - 1) as nat);
                match r.0 {
                    Err(e) => (Err(e), r.1),
                    Ok(c) => match spec_truthy_cond(c) {
                        Err(e) => (Err(e), r.1),
                        Ok(t) => if t {
                            if args.len() < 2 {
                                (Err(ErrV::Fatal(Fatal::Arity)), r.1)
                            } else {
                                spec_eval_expr(args[1], r.1, (fuel - 1) as nat)
                            }
                        } else {
                            if args.len() < 3 {
                                (Ok(Val::Nil), r.1)
                            } else {
                                spec_eval_expr(args[2], r.1, (fuel - 1) as nat)
                            }
                        },
                    },
                }
            }
        },
        NativeOp::Eq => {
            if args.len() != 2 {
                (Err(ErrV::Fatal(Fatal::Arity)), env)
            } else {
                let r2 = spec_eval_expr(args[1], env, (fuel - 1) as nat);
                match r2.0 {
                    Err(e) => (Err(e), r2.1),
                    Ok(b) => {
                        let r1 = spec_eval_expr(args[0], r2.1, (fuel - 1) as nat);
                        match r1.0 {
                            Err(e) => (Err(e), r1.1),
                            Ok(a) => match spec_eq_semantics(a, b) {
                                Err(e) => (Err(e), r1.1),
                                Ok(t) => (
                                    Ok(
                                        if t {
                                            Val::Number(MICRO as int)
                                        } else {
                                            Val::Nil
                                        },
                                    ),
                                    r1.1,
                                ),
                            },
                        }
                    },
                }
            }
        },
        NativeOp::Nth => {
            if args.len() != 2 {
                (Err(ErrV::Fatal(Fatal::Arity)), env)
            } else {
                let r = spec_eval_expr(args[0], env, (fuel - 1) as nat);
                match r.0 {
                    Err(e) => (Err(e), r.1),
                    Ok(iv) => match iv {
                        Val::Number(n) => {
                            let r2 = spec_eval_expr(args[1], r.1, (fuel - 1) as nat);
                            match r2.0 {
                                Err(e) => (Err(e), r2.1),
                                Ok(vv) => match vv {
                                    Val::Vector(items) => {
                                        let idx = floor_index_of(n);
                                        if idx < items.len() {
                                            (Ok(items[idx]), r2.1)
                                        } else {
                                            (Ok(Val::Nil), r2.1)
                                        }
                                    },
                                    _ => (Err(ErrV::Fatal(Fatal::Type)), r2.1),
                                },
                            }
                        },
                        _ => (Err(ErrV::Fatal(Fatal::Type)), r.1),
                    },
                }
            }
        },
        NativeOp::Polygon => {
            if args.len() != 1 && args.len() != 2 {
                (Err(ErrV::Fatal(Fatal::Arity)), env)
            } else {
                match spec_cur_pos(lookup_var(env, "CURRENT_POSITION"@)) {
                    Err(e) => (Err(e), env),
                    Ok(pos) => {
                        let ro: (Result<Option<Seq<int>>, ErrV>, EnvV) = if args.len() == 2 {
                            let r = spec_eval_expr(args[1], env, (fuel - 1) as nat);
                            match r.0 {
                                Err(e) => (Err(e), r.1),
                                Ok(v) => match spec_order_of(v) {
                                    Err(e) => (Err(e), r.1),
                                    Ok(o) => (Ok(Some(o)), r.1),
                                },
                            }
                        } else {
                            (Ok(None), env)
                        };
                        match ro.0 {
                            Err(e) => (Err(e), ro.1),
                            Ok(order) => {
                                let rp = spec_eval_expr(args[0], ro.1, (fuel - 1) as nat);
                                match rp.0 {
                                    Err(e) => (Err(e), rp.1),
                                    Ok(v) => match spec_points_of(v) {
                                        Err(e) => (Err(e), rp.1),
                                        Ok(points) => (
                                            Ok(
                                                Val::Native(
                                                    NativeV::Polygon(
                                                        PolyV { points, order, pos },
                                                    ),
                                                ),
                                            ),
                                            rp.1,
                                        ),
                                    },
                                }
                            },
                        }
                    },
                }
            }
        },
        NativeOp::Extrude => {
            if args.len() != 2 {
                (Err(ErrV::Fatal(Fatal::Arity)), env)
            } else {
                let r = spec_eval_expr(args[0], env, (fuel - 1) as nat);
                match r.0 {
                    Err(e) => (Err(e), r.1),
                    Ok(hv) => match hv {
                        Val::Number(h) => {
                            let r2 = spec_eval_expr(args[1], r.1, (fuel - 1) as nat);
                            match r2.0 {
                                Err(e) => (Err(e), r2.1),
                                Ok(v) => match v {
                                    Val::Native(NativeV::Polygon(p)) => (
                                        Ok(Val::Native(NativeV::Extrude(p, h))),
                                        r2.1,
                                    ),
                                    Val::Native(NativeV::Extrude(_, _)) => (
                                        Err(ErrV::Fatal(Fatal::UnsupportedNative)),
                                        r2.1,
                                    ),
                                    _ => (Err(ErrV::Fatal(Fatal::Type)), r2.1),
                                },
                            }
                        },
                        _ => (Err(ErrV::Fatal(Fatal::Type)), r.1),
                    },
                }
            }
        },
    }
    }
}

/// A call: push a fresh scope, bind parameters or dispatch the built-in,
/// and pop the scope on every way out.
pub open spec fn spec_call(f: FuncV, args: Seq<ValueV>, env: EnvV, fuel: nat) -> (
    Result<Val, ErrV>,
    EnvV,
)
    decreases fuel, 0int, 1int,
{
    if fuel == 0 {
        (Err(ErrV::Fatal(Fatal::Depth)), env)
    } else {
        let env1 = EnvV { locals: env.locals.push(Map::empty()), ..env };
        let r: (Result<Val, ErrV>, EnvV) = match f {
            FuncV::Lisp(lf) => {
                let rb = spec_bind_params(lf.params, args, 0, env1, (fuel - 1) as nat);
                match rb.0 {
                    Some(e) => (Err(e), rb.1),
                    None => spec_eval_body(lf.body, rb.1, (fuel - 1) as nat),
                }
            },
            FuncV::Native(op) => spec_native(op, args, env1, fuel),
        };
        (r.0, EnvV { locals: spec_pop(r.1.locals), ..r.1 })
    }
}

/// The environment a run starts from: `nil`, `t` and `CURRENT_POSITION`
/// preset, and the built-ins registered.
pub open spec fn spec_default_env() -> EnvV {
    EnvV {
        functions: Map::<Seq<char>, FuncV>::empty().insert(
            "print"@,
            FuncV::Native(NativeOp::Print),
        ).insert("+"@, FuncV::Native(NativeOp::Add)).insert(
            "-"@,
            FuncV::Native(NativeOp::Sub),
        ).insert("?"@, FuncV::Native(NativeOp::Cond)).insert(
            "=="@,
            FuncV::Native(NativeOp::Eq),
        ).insert("nth"@, FuncV::Native(NativeOp::Nth)).insert(
            "polygon"@,
            FuncV::Native(NativeOp::Polygon),
        ).insert("extrude"@, FuncV::Native(NativeOp::Extrude)),
        variables: Map::<Seq<char>, Val>::empty().insert("nil"@, Val::Nil).insert(
            "t"@,
            Val::True,
        ).insert(
            "CURRENT_POSITION"@,
            Val::Vector(seq![Val::Number(0), Val::Number(0), Val::Number(0)]),
        ),
        locals: Seq::empty(),
        output: Seq::empty(),
    }
}

/// A whole program: each top-level expression in order, each with the
/// full depth budget, collecting every value.
pub open spec fn spec_run(program: Seq<ValueV>, env: EnvV) -> (Result<Seq<Val>, ErrV>, EnvV)
    decreases program,
{
    if program.len() == 0 {
        (Ok(Seq::empty()), env)
    } else {
        let r = spec_eval_expr(program[0], env, EVAL_FUEL as nat);
        match r.0 {
            Err(e) => (Err(e), r.1),
            Ok(v) => {
                let r2 = spec_run(program.drop_first(), r.1);
                match r2.0 {
                    Ok(rest) => (Ok(seq![v] + rest), r2.1),
                    Err(e) => (Err(e), r2.1),
                }
            },
        }
    }
}

/// The values of a program, evaluated in a fresh default environment.
pub open spec fn spec_evaluate(program: Seq<ValueV>) -> Result<Seq<Val>, ErrV> {
    spec_run(program, spec_default_env()).0
}


/// Truthiness as the conditional reads it.
fn truthy_cond(v: &EvaluatedValue) -> (r: Result<bool, EvalError>)
    ensures
        match r {
            Ok(t) => spec_truthy_cond(v.deep()) == Ok::<bool, ErrV>(t),
            Err(e) => spec_truthy_cond(v.deep()) == Err::<bool, ErrV>(e.deep()),
        },
{
    match v {
        EvaluatedValue::Nil => Ok(false),
        EvaluatedValue::True => Ok(true),
        EvaluatedValue::Number(n) => Ok(n.raw != 0),
        EvaluatedValue::Vector(_) => Ok(true),
        EvaluatedValue::Native(_) => Err(EvalError::Fatal(Fatal::UnsupportedNative)),
    }
}

/// Truthiness as `==` reads it.
fn truthy_eq(v: &EvaluatedValue) -> (r: Result<bool, EvalError>)
    ensures
        match r {
            Ok(t) => spec_truthy_eq(v.deep()) == Ok::<bool, ErrV>(t),
            Err(e) => spec_truthy_eq(v.deep()) == Err::<bool, ErrV>(e.deep()),
        },
{
    match v {
        EvaluatedValue::Nil => Ok(false),
        EvaluatedValue::True => Ok(true),
        EvaluatedValue::Number(n) => Ok(n.raw != 0),
        EvaluatedValue::Vector(items) => {
            proof {
                lemma_deep_vals(items@);
            }
            Ok(items.len() != 0)
        },
        EvaluatedValue::Native(_) => Err(EvalError::Fatal(Fatal::UnsupportedNative)),
    }
}

/// The `==` built-in's cross-type equality.
fn eq_semantics(a: &EvaluatedValue, b: &EvaluatedValue) -> (r: Result<bool, EvalError>)
    ensures
        match r {
            Ok(t) => spec_eq_semantics(a.deep(), b.deep()) == Ok::<bool, ErrV>(t),
            Err(e) => spec_eq_semantics(a.deep(), b.deep()) == Err::<bool, ErrV>(e.deep()),
        },
{
    match a {
        EvaluatedValue::Nil => match truthy_eq(b) {
            Ok(t) => Ok(!t),
            Err(e) => Err(e),
        },
        EvaluatedValue::True => truthy_eq(b),
        EvaluatedValue::Number(n) => match b {
            EvaluatedValue::Nil => Ok(n.raw == 0),
            EvaluatedValue::True => Ok(n.raw != 0),
            EvaluatedValue::Number(m) => Ok(n.raw == m.raw),
            EvaluatedValue::Vector(items) => {
                proof {
                    lemma_deep_vals(items@);
                }
                Ok(items.len() == 0 && n.raw == 0)
            },
            EvaluatedValue::Native(_) => Err(EvalError::Fatal(Fatal::UnsupportedNative)),
        },
        EvaluatedValue::Vector(v1) => {
            proof {
                lemma_deep_vals(v1@);
            }
            match b {
                EvaluatedValue::Nil => Ok(v1.len() == 0),
                EvaluatedValue::True => Ok(v1.len() != 0),
                EvaluatedValue::Number(n) => Ok(n.raw == 0 && v1.len() == 0),
                EvaluatedValue::Vector(_) => Ok(values_eq(a, b)),
                EvaluatedValue::Native(_) => Err(EvalError::Fatal(Fatal::UnsupportedNative)),
            }
        },
        EvaluatedValue::Native(_) => Err(EvalError::Fatal(Fatal::UnsupportedNative)),
    }
}

/// The numbers of a vector's items.
fn nums_of(items: &Vec<EvaluatedValue>) -> (r: Result<Vec<Num>, EvalError>)
    ensures
        match r {
            Ok(nums) => spec_nums_of(deep_vals(items@)) == Ok::<Seq<int>, ErrV>(
                Seq::new(nums@.len(), |i: int| nums@[i].value()),
            ),
            Err(e) => spec_nums_of(deep_vals(items@)) == Err::<Seq<int>, ErrV>(e.deep()),
        },
{
    let ghost dv = deep_vals(items@);
    proof {
        lemma_deep_vals(items@);
    }
    let n = items.len();
    let mut out: Vec<Num> = Vec::new();
    let mut i: usize = 0;
    proof {
        assert(dv.subrange(0, 0) =~= Seq::<Val>::empty());
        assert(spec_nums_of(dv.subrange(0, 0)) == Ok::<Seq<int>, ErrV>(Seq::empty()));
        assert(Seq::new(out@.len(), |k: int| out@[k].value()) =~= Seq::<int>::empty());
    }
    while i < n
        invariant
            i <= n == items@.len(),
            dv == deep_vals(items@),
            dv.len() == n,
            forall|k: int| 0 <= k < n ==> dv[k] == #[trigger] items@[k].deep(),
            out@.len() == i,
            spec_nums_of(dv.subrange(0, i as int)) == Ok::<Seq<int>, ErrV>(
                Seq::new(out@.len(), |k: int| out@[k].value()),
            ),
        decreases n - i,
    {
        let ghost out0 = out@;
        proof {
            assert(dv[i as int] == items@[i as int].deep());
        }
        match &items[i] {
            EvaluatedValue::Number(x) => {
                out.push(*x);
            },
            _ => {
                proof {
                    lemma_nums_of_err(dv, i as int);
                }
                return Err(EvalError::Fatal(Fatal::Type));
            },
        }
        proof {
            let pre = dv.subrange(0, i + 1);
            assert(pre.drop_last() =~= dv.subrange(0, i as int));
            assert(pre.last() == dv[i as int]);
            assert(Seq::new(out@.len(), |k: int| out@[k].value()) =~= Seq::new(
                out0.len(),
                |k: int| out0[k].value(),
            ).push(out@[i as int].value()));
        }
        i = i + 1;
    }
    proof {
        assert(dv.subrange(0, n as int) =~= dv);
    }
    Ok(out)
}

/// The first non-number item decides the number reading's error.
proof fn lemma_nums_of_err(items: Seq<Val>, i: int)
    requires
        0 <= i < items.len(),
        spec_nums_of(items.subrange(0, i)) is Ok,
        !(items[i] is Number),
    ensures
        spec_nums_of(items) == Err::<Seq<int>, ErrV>(ErrV::Fatal(Fatal::Type)),
    decreases items,
{
    if i == items.len() - 1 {
        assert(items.drop_last() =~= items.subrange(0, i));
        assert(items.last() == items[i]);
    } else {
        assert(items.drop_last()[i] == items[i]);
        assert(items.drop_last().subrange(0, i) =~= items.subrange(0, i));
        lemma_nums_of_err(items.drop_last(), i);
    }
}

/// The origin offset from the `CURRENT_POSITION` binding.
fn cur_pos_from(v: Option<&EvaluatedValue>) -> (r: Result<(Num, Num, Num), EvalError>)
    ensures
        match r {
            Ok(p) => spec_cur_pos(
                match v {
                    Some(x) => Some(x.deep()),
                    None => None,
                },
            ) == Ok::<(int, int, int), ErrV>((p.0.value(), p.1.value(), p.2.value())),
            Err(e) => spec_cur_pos(
                match v {
                    Some(x) => Some(x.deep()),
                    None => None,
                },
            ) == Err::<(int, int, int), ErrV>(e.deep()),
        },
{
    match v {
        Some(EvaluatedValue::Vector(items)) => match nums_of(items) {
            Err(e) => Err(e),
            Ok(nums) => {
                if nums.len() >= 3 {
                    Ok((nums[0], nums[1], nums[2]))
                } else {
                    Err(EvalError::Fatal(Fatal::Type))
                }
            },
        },
        _ => Err(EvalError::Fatal(Fatal::Type)),
    }
}

/// The point-index order argument.
fn order_of(v: &EvaluatedValue) -> (r: Result<Vec<u64>, EvalError>)
    ensures
        match r {
            Ok(o) => spec_order_of(v.deep()) == Ok::<Seq<int>, ErrV>(
                Seq::new(o@.len(), |i: int| o@[i] as int),
            ),
            Err(e) => spec_order_of(v.deep()) == Err::<Seq<int>, ErrV>(e.deep()),
        },
{
    match v {
        EvaluatedValue::Vector(items) => match nums_of(items) {
            Err(e) => Err(e),
            Ok(nums) => {
                let m = nums.len();
                let ghost nv = Seq::new(nums@.len(), |i: int| nums@[i].value());
                let mut out: Vec<u64> = Vec::new();
                let mut i: usize = 0;
                while i < m
                    invariant
                        i <= m == nums@.len(),
                        nv == Seq::new(nums@.len(), |k: int| nums@[k].value()),
                        out@.len() == i,
                        forall|k: int| 0 <= k < i ==> #[trigger] out@[k] as int
                            == floor_index_of(nv[k]),
                    decreases m - i,
                {
                    out.push(nums[i].floor_index());
                    i = i + 1;
                }
                proof {
                    assert(Seq::new(out@.len(), |k: int| out@[k] as int) =~= Seq::new(
                        nv.len(),
                        |k: int| floor_index_of(nv[k]),
                    ));
                }
                Ok(out)
            },
        },
        _ => Err(EvalError::Fatal(Fatal::Type)),
    }
}

/// One polygon point.
fn point_of(v: &EvaluatedValue) -> (r: Result<(Num, Num), EvalError>)
    ensures
        match r {
            Ok(p) => spec_point_of(v.deep()) == Ok::<(int, int), ErrV>(
                (p.0.value(), p.1.value()),
            ),
            Err(e) => spec_point_of(v.deep()) == Err::<(int, int), ErrV>(e.deep()),
        },
{
    match v {
        EvaluatedValue::Vector(items) => {
            proof {
                lemma_deep_vals(items@);
            }
            if items.len() < 2 {
                return Err(EvalError::Fatal(Fatal::Type));
            }
            proof {
                assert(deep_vals(items@)[0] == items@[0].deep());
                assert(deep_vals(items@)[1] == items@[1].deep());
            }
            match &items[0] {
                EvaluatedValue::Number(x) => match &items[1] {
                    EvaluatedValue::Number(y) => Ok((*x, *y)),
                    _ => Err(EvalError::Fatal(Fatal::Type)),
                },
                _ => Err(EvalError::Fatal(Fatal::Type)),
            }
        },
        _ => Err(EvalError::Fatal(Fatal::Type)),
    }
}

/// The polygon's points argument.
fn points_of(v: &EvaluatedValue) -> (r: Result<Vec<(Num, Num)>, EvalError>)
    ensures
        match r {
            Ok(ps) => spec_points_of(v.deep()) == Ok::<Seq<(int, int)>, ErrV>(
                Seq::new(ps@.len(), |i: int| (ps@[i].0.value(), ps@[i].1.value())),
            ),
            Err(e) => spec_points_of(v.deep()) == Err::<Seq<(int, int)>, ErrV>(e.deep()),
        },
{
    match v {
        EvaluatedValue::Vector(items) => {
            let ghost dv = deep_vals(items@);
            proof {
                lemma_deep_vals(items@);
            }
            if items.len() < 3 {
                return Err(EvalError::Fatal(Fatal::Arity));
            }
            let n = items.len();
            let mut out: Vec<(Num, Num)> = Vec::new();
            let mut i: usize = 0;
            proof {
                assert(dv.subrange(0, 0) =~= Seq::<Val>::empty());
                assert(Seq::new(out@.len(), |k: int| (out@[k].0.value(), out@[k].1.value()))
                    =~= Seq::<(int, int)>::empty());
            }
            while i < n
                invariant
                    i <= n == items@.len(),
                    n >= 3,
                    *v == EvaluatedValue::Vector(*items),
                    v.deep() == Val::Vector(dv),
                    dv == deep_vals(items@),
                    dv.len() == n,
                    forall|k: int| 0 <= k < n ==> dv[k] == #[trigger] items@[k].deep(),
                    out@.len() == i,
                    spec_points_seq(dv.subrange(0, i as int)) == Ok::<Seq<(int, int)>, ErrV>(
                        Seq::new(out@.len(), |k: int| (out@[k].0.value(), out@[k].1.value())),
                    ),
                decreases n - i,
            {
                let ghost out0 = out@;
                proof {
                    assert(dv[i as int] == items@[i as int].deep());
                }
                match point_of(&items[i]) {
                    Ok(p) => {
                        out.push(p);
                    },
                    Err(e) => {
                        proof {
                            lemma_points_seq_err(dv, i as int, e.deep());
                        }
                        return Err(e);
                    },
                }
                proof {
                    let pre = dv.subrange(0, i + 1);
                    assert(pre.drop_last() =~= dv.subrange(0, i as int));
                    assert(pre.last() == dv[i as int]);
                    assert(Seq::new(out@.len(), |k: int| (out@[k].0.value(), out@[k].1.value()))
                        =~= Seq::new(
                        out0.len(),
                        |k: int| (out0[k].0.value(), out0[k].1.value()),
                    ).push((out@[i as int].0.value(), out@[i as int].1.value())));
                }
                i = i + 1;
            }
            proof {
                assert(dv.subrange(0, n as int) =~= dv);
            }
            Ok(out)
        },
        _ => Err(EvalError::Fatal(Fatal::Type)),
    }
}

/// The first failing point decides the point sequence's error.
proof fn lemma_points_seq_err(items: Seq<Val>, i: int, e: ErrV)
    requires
        0 <= i < items.len(),
        spec_points_seq(items.subrange(0, i)) is Ok,
        spec_point_of(items[i]) == Err::<(int, int), ErrV>(e),
    ensures
        spec_points_seq(items) == Err::<Seq<(int, int)>, ErrV>(e),
    decreases items,
{
    if i == items.len() - 1 {
        assert(items.drop_last() =~= items.subrange(0, i));
        assert(items.last() == items[i]);
    } else {
        assert(items.drop_last()[i] == items[i]);
        assert(items.drop_last().subrange(0, i) =~= items.subrange(0, i));
        lemma_points_seq_err(items.drop_last(), i, e);
    }
}

/// The parameter list of a `fn` form.
fn parse_params(items: &Vec<Value>) -> (r: Result<Vec<(String, Option<Value>)>, EvalError>)
    ensures
        match r {
            Ok(ps) => spec_parse_params(deep_body(items@)) == Ok::<
                Seq<(Seq<char>, Option<ValueV>)>,
                ErrV,
            >(
                Seq::new(
                    ps@.len(),
                    |i: int|
                        (
                            ps@[i].0@,
                            match ps@[i].1 {
                                Some(d) => Some(d.deep()),
                                None => None::<ValueV>,
                            },
                        ),
                ),
            ),
            Err(e) => spec_parse_params(deep_body(items@)) == Err::<
                Seq<(Seq<char>, Option<ValueV>)>,
                ErrV,
            >(e.deep()),
        },
{
    let ghost dv = deep_body(items@);
    proof {
        lemma_deep_body(items@);
    }
    let n = items.len();
    let mut out: Vec<(String, Option<Value>)> = Vec::new();
    let mut i: usize = 0;
    proof {
        assert(dv.subrange(0, 0) =~= Seq::<ValueV>::empty());
        assert(Seq::new(
            out@.len(),
            |k: int|
                (
                    out@[k].0@,
                    match out@[k].1 {
                        Some(d) => Some(d.deep()),
                        None => None::<ValueV>,
                    },
                ),
        ) =~= Seq::<(Seq<char>, Option<ValueV>)>::empty());
    }
    while i < n
        invariant
            i <= n == items@.len(),
            dv == deep_body(items@),
            dv.len() == n,
            forall|k: int| 0 <= k < n ==> dv[k] == #[trigger] items@[k].deep(),
            out@.len() == i,
            spec_parse_params(dv.subrange(0, i as int)) == Ok::<
                Seq<(Seq<char>, Option<ValueV>)>,
                ErrV,
            >(
                Seq::new(
                    out@.len(),
                    |k: int|
                        (
                            out@[k].0@,
                            match out@[k].1 {
                                Some(d) => Some(d.deep()),
                                None => None::<ValueV>,
                            },
                        ),
                ),
            ),
        decreases n - i,
    {
        let ghost out0 = out@;
        proof {
            assert(dv[i as int] == items@[i as int].deep());
        }
        match &items[i] {
            Value::Identifier(name) => {
                out.push((name.clone(), None));
            },
            Value::SExpression(sexp) => {
                proof {
                    lemma_deep_body(sexp.body@);
                    assert(items@[i as int].deep() == ValueV::SExpression(
                        deep_body(sexp.body@),
                    ));
                }
                let inner = &sexp.body;
                if inner.len() != 2 {
                    proof {
                        assert(dv.subrange(0, i + 1).drop_last() =~= dv.subrange(0, i as int));
                        assert(dv.subrange(0, i + 1).last() == dv[i as int]);
                        lemma_parse_params_prefix_err(dv, i + 1, ErrV::Fatal(Fatal::Arity));
                    }
                    return Err(EvalError::Fatal(Fatal::Arity));
                }
                proof {
                    assert(deep_body(sexp.body@)[0] == sexp.body@[0].deep());
                    assert(deep_body(sexp.body@)[1] == sexp.body@[1].deep());
                }
                match &inner[0] {
                    Value::Identifier(name) => {
                        let d = crate::parse::value_duplicate(&inner[1]);
                        out.push((name.clone(), Some(d)));
                    },
                    _ => {
                        proof {
                            assert(dv.subrange(0, i + 1).drop_last() =~= dv.subrange(
                                0,
                                i as int,
                            ));
                            assert(dv.subrange(0, i + 1).last() == dv[i as int]);
                            lemma_parse_params_prefix_err(dv, i + 1, ErrV::Fatal(Fatal::Type));
                        }
                        return Err(EvalError::Fatal(Fatal::Type));
                    },
                }
            },
            _ => {
                proof {
                    assert(dv.subrange(0, i + 1).drop_last() =~= dv.subrange(0, i as int));
                    assert(dv.subrange(0, i + 1).last() == dv[i as int]);
                    lemma_parse_params_prefix_err(dv, i + 1, ErrV::Fatal(Fatal::Type));
                }
                return Err(EvalError::Fatal(Fatal::Type));
            },
        }
        proof {
            let pre = dv.subrange(0, i + 1);
            assert(pre.drop_last() =~= dv.subrange(0, i as int));
            assert(pre.last() == dv[i as int]);
            assert(Seq::new(
                out@.len(),
                |k: int|
                    (
                        out@[k].0@,
                        match out@[k].1 {
                            Some(d) => Some(d.deep()),
                            None => None::<ValueV>,
                        },
                    ),
            ) =~= Seq::new(
                out0.len(),
                |k: int|
                    (
                        out0[k].0@,
                        match out0[k].1 {
                            Some(d) => Some(d.deep()),
                            None => None::<ValueV>,
                        },
                    ),
            ).push(
                (
                    out@[i as int].0@,
                    match out@[i as int].1 {
                        Some(d) => Some(d.deep()),
                        None => None::<ValueV>,
                    },
                ),
            ));
        }
        i = i + 1;
    }
    proof {
        assert(dv.subrange(0, n as int) =~= dv);
    }
    Ok(out)
}

/// Once a prefix of the parameter list fails to parse, the whole fails
/// with that same error.
proof fn lemma_parse_params_prefix_err(items: Seq<ValueV>, j: int, e: ErrV)
    requires
        0 <= j <= items.len(),
        spec_parse_params(items.subrange(0, j)) == Err::<
            Seq<(Seq<char>, Option<ValueV>)>,
            ErrV,
        >(e),
    ensures
        spec_parse_params(items) == Err::<Seq<(Seq<char>, Option<ValueV>)>, ErrV>(e),
    decreases items.len() - j,
{
    if j < items.len() {
        assert(items.subrange(0, j + 1).drop_last() =~= items.subrange(0, j));
        lemma_parse_params_prefix_err(items, j + 1, e);
    } else {
        assert(items.subrange(0, items.len() as int) =~= items);
    }
}


/// An exact copy of a callable.
pub fn eval_function_copy(f: &EvalFunction) -> (r: EvalFunction)
    ensures
        r.deep() == f.deep(),
{
    match f {
        EvalFunction::NativeFunction(op) => EvalFunction::NativeFunction(*op),
        EvalFunction::LispFunction(lf) => {
            let n = lf.arguments.len();
            let mut arguments: Vec<(String, Option<Value>)> = Vec::new();
            let mut i: usize = 0;
            while i < n
                invariant
                    i <= n == lf.arguments@.len(),
                    arguments@.len() == i,
                    forall|j: int| 0 <= j < i ==> params_view(arguments@)[j] == params_view(
                        lf.arguments@,
                    )[j],
                decreases n - i,
            {
                let ghost args0 = arguments@;
                let name = lf.arguments[i].0.clone();
                let d: Option<Value> = match &lf.arguments[i].1 {
                    Some(dv) => Some(crate::parse::value_duplicate(dv)),
                    None => None,
                };
                arguments.push((name, d));
                proof {
                    assert forall|j: int| 0 <= j < i + 1 implies params_view(arguments@)[j]
                        == params_view(lf.arguments@)[j] by {
                        if j < i {
                            assert(arguments@[j] == args0[j]);
                            assert(params_view(args0)[j] == params_view(lf.arguments@)[j]);
                        } else {
                            assert(arguments@[j].0@ == lf.arguments@[j].0@);
                            assert((match arguments@[j].1 {
                                Some(dv) => Some(dv.deep()),
                                None => None::<ValueV>,
                            }) == (match lf.arguments@[j].1 {
                                Some(dv) => Some(dv.deep()),
                                None => None::<ValueV>,
                            }));
                        }
                    }
                }
                i = i + 1;
            }
            proof {
                assert(params_view(arguments@) =~= params_view(lf.arguments@));
            }
            let m = lf.body.len();
            let mut body: Vec<Value> = Vec::new();
            let mut k: usize = 0;
            proof {
                lemma_deep_body(lf.body@);
            }
            while k < m
                invariant
                    k <= m == lf.body@.len(),
                    body@.len() == k,
                    deep_body(lf.body@).len() == m,
                    forall|j: int| 0 <= j < k ==> #[trigger] body@[j].deep() == deep_body(
                        lf.body@,
                    )[j],
                decreases m - k,
            {
                proof {
                    lemma_deep_body(lf.body@);
                }
                let c = crate::parse::value_duplicate(&lf.body[k]);
                body.push(c);
                k = k + 1;
            }
            proof {
                lemma_deep_body(body@);
                lemma_deep_body(lf.body@);
                assert forall|j: int| 0 <= j < m implies deep_body(body@)[j] == deep_body(
                    lf.body@,
                )[j] by {
                    assert(body@[j].deep() == deep_body(lf.body@)[j]);
                }
                assert(deep_body(body@) =~= deep_body(lf.body@));
            }
            EvalFunction::LispFunction(LispFunction { arguments, body })
        },
    }
}

/// One `print` line: the debug texts of the values, space-joined.
fn print_line_string(vals: &Vec<EvaluatedValue>) -> (r: String)
    ensures
        r@ == print_line(deep_vals(vals@)),
{
    let ghost dv = deep_vals(vals@);
    proof {
        lemma_deep_vals(vals@);
    }
    let mut out = String::new();
    let n = vals.len();
    let mut i: usize = 0;
    proof {
        assert(print_line(dv.subrange(0, 0)) =~= Seq::<char>::empty());
        assert(out@ =~= print_line(dv.subrange(0, 0)));
    }
    while i < n
        invariant
            i <= n == vals@.len(),
            dv == deep_vals(vals@),
            dv.len() == n,
            forall|k: int| 0 <= k < n ==> dv[k] == #[trigger] vals@[k].deep(),
            out@ == print_line(dv.subrange(0, i as int)),
        decreases n - i,
    {
        if i > 0 {
            out.append(" ");
        }
        let s = crate::eval::value_debug_string(&vals[i]);
        out.append(s.as_str());
        proof {
            let pre = dv.subrange(0, i + 1);
            assert(pre.drop_last() =~= dv.subrange(0, i as int));
            assert(pre.last() == dv[i as int]);
            assert(dv[i as int] == vals@[i as int].deep());
            assert(out@ =~= print_line(pre));
        }
        i = i + 1;
    }
    proof {
        assert(dv.subrange(0, n as int) =~= dv);
    }
    out
}

/// One expression against the environment.
pub fn evaluate_expression(expression: &Value, env: &mut EvalEnvironment, fuel: u64) -> (r:
    Result<EvaluatedValue, EvalError>)
    ensures
        ({
            let sr = spec_eval_expr(expression.deep(), old(env).deep(), fuel as nat);
            final(env).deep() == sr.1 && (match r {
                Ok(v) => sr.0 == Ok::<Val, ErrV>(v.deep()),
                Err(e) => sr.0 == Err::<Val, ErrV>(e.deep()),
            })
        }),
    decreases fuel as int, 0int, 2int,
{
    if fuel == 0 {
        return Err(EvalError::Fatal(Fatal::Depth));
    }
    match expression {
        Value::Number(n) => Ok(EvaluatedValue::Number(*n)),
        Value::Identifier(name) => {
            let found = env.get_variable(name.as_str());
            match found {
                None => Err(EvalError::Fatal(Fatal::UnresolvedIdentifier)),
                Some(value) => Ok(crate::eval::value_copy(value)),
            }
        },
        Value::SExpression(sexpr) => {
            let ghost b = deep_body(sexpr.body@);
            proof {
                lemma_deep_body(sexpr.body@);
                if sexpr.body@.len() > 0 {
                    assert(b[0] == sexpr.body@[0].deep());
                }
            }
            let blen = sexpr.body.len();
            let is_set = if blen > 0 {
                match &sexpr.body[0] {
                    Value::Identifier(id) => str_eq(id.as_str(), "set"),
                    _ => false,
                }
            } else {
                false
            };
            if is_set {
                return eval_set(sexpr, env, fuel);
            }
            let is_fn = if blen > 0 {
                match &sexpr.body[0] {
                    Value::Identifier(id) => str_eq(id.as_str(), "fn"),
                    _ => false,
                }
            } else {
                false
            };
            if is_fn {
                return eval_fndef(sexpr, env);
            }
            let func: Option<EvalFunction> = if blen > 0 {
                match &sexpr.body[0] {
                    Value::Identifier(id) => match assoc_get_func(&env.functions, id.as_str()) {
                        Some(f) => Some(eval_function_copy(f)),
                        None => None,
                    },
                    _ => None,
                }
            } else {
                None
            };
            match func {
                Some(f) => {
                    proof {
                        assert(b.drop_first() =~= deep_body(sexpr.body@).subrange(
                            1,
                            sexpr.body@.len() as int,
                        ));
                    }
                    call_function(env, &f, &sexpr.body, 1, fuel - 1)
                },
                None => {
                    proof {
                        assert(b =~= deep_body(sexpr.body@).subrange(
                            0,
                            sexpr.body@.len() as int,
                        ));
                    }
                    match eval_seq(env, &sexpr.body, 0, fuel - 1) {
                        Ok(vals) => Ok(EvaluatedValue::Vector(vals)),
                        Err(e) => Err(e),
                    }
                },
            }
        },
    }
}

/// The `set` special form.
fn eval_set(sexpr: &SExpression, env: &mut EvalEnvironment, fuel: u64) -> (r: Result<
    EvaluatedValue,
    EvalError,
>)
    requires
        fuel >= 1,
    ensures
        ({
            let sr = spec_eval_set(deep_body(sexpr.body@), old(env).deep(), fuel as nat);
            final(env).deep() == sr.1 && (match r {
                Ok(v) => sr.0 == Ok::<Val, ErrV>(v.deep()),
                Err(e) => sr.0 == Err::<Val, ErrV>(e.deep()),
            })
        }),
    decreases fuel as int, 0int, 1int,
{
    let ghost b = deep_body(sexpr.body@);
    proof {
        lemma_deep_body(sexpr.body@);
    }
    if sexpr.body.len() != 3 {
        return Err(EvalError::Fatal(Fatal::Arity));
    }
    proof {
        assert(b[1] == sexpr.body@[1].deep());
        assert(b[2] == sexpr.body@[2].deep());
    }
    match &sexpr.body[1] {
        Value::Identifier(name) => {
            let name_copy = name.clone();
            match evaluate_expression(&sexpr.body[2], env, fuel - 1) {
                Err(e) => Err(e),
                Ok(v) => {
                    env.set_variable(name_copy, v);
                    Ok(EvaluatedValue::Nil)
                },
            }
        },
        other => Err(EvalError::UnexpectedExpression(crate::parse::value_duplicate(other))),
    }
}

/// The `fn` special form.
fn eval_fndef(sexpr: &SExpression, env: &mut EvalEnvironment) -> (r: Result<
    EvaluatedValue,
    EvalError,
>)
    ensures
        ({
            let sr = spec_eval_fndef(deep_body(sexpr.body@), old(env).deep());
            final(env).deep() == sr.1 && (match r {
                Ok(v) => sr.0 == Ok::<Val, ErrV>(v.deep()),
                Err(e) => sr.0 == Err::<Val, ErrV>(e.deep()),
            })
        }),
{
    let ghost b = deep_body(sexpr.body@);
    proof {
        lemma_deep_body(sexpr.body@);
    }
    if sexpr.body.len() < 2 {
        return Err(EvalError::Fatal(Fatal::Arity));
    }
    proof {
        assert(b[1] == sexpr.body@[1].deep());
    }
    match &sexpr.body[1] {
        Value::Identifier(name) => {
            if sexpr.body.len() < 3 {
                return Err(EvalError::Fatal(Fatal::Arity));
            }
            proof {
                assert(b[2] == sexpr.body@[2].deep());
            }
            match &sexpr.body[2] {
                Value::SExpression(args_expr) => {
                    match parse_params(&args_expr.body) {
                        Err(e) => Err(e),
                        Ok(params) => {
                            // The body: everything after the parameter
                            // list, copied unevaluated.
                            let n = sexpr.body.len();
                            let mut f_body: Vec<Value> = Vec::new();
                            let mut i: usize = 3;
                            proof {
                                lemma_deep_body(sexpr.body@);
                            }
                            while i < n
                                invariant
                                    3 <= i <= n == sexpr.body@.len(),
                                    b == deep_body(sexpr.body@),
                                    b.len() == n,
                                    forall|k: int| 0 <= k < n ==> b[k]
                                        == #[trigger] sexpr.body@[k].deep(),
                                    f_body@.len() == i - 3,
                                    forall|k: int| 0 <= k < i - 3 ==> #[trigger] f_body@[
                                        k
                                    ].deep() == b[k + 3],
                                decreases n - i,
                            {
                                let c = crate::parse::value_duplicate(&sexpr.body[i]);
                                f_body.push(c);
                                i = i + 1;
                            }
                            proof {
                                lemma_deep_body(f_body@);
                                assert forall|k: int| 0 <= k < n - 3 implies deep_body(
                                    f_body@,
                                )[k] == b.subrange(3, n as int)[k] by {
                                    assert(f_body@[k].deep() == b[k + 3]);
                                }
                                assert(deep_body(f_body@) =~= b.subrange(3, n as int));
                            }
                            let f = LispFunction::new(params, f_body);
                            env.set_function(
                                name.clone(),
                                EvalFunction::LispFunction(f),
                            );
                            Ok(EvaluatedValue::Nil)
                        },
                    }
                },
                _ => Err(EvalError::Fatal(Fatal::Type)),
            }
        },
        _ => Err(EvalError::Fatal(Fatal::Type)),
    }
}

/// Each expression of `items[start..]` in order, collecting the values.
fn eval_seq(env: &mut EvalEnvironment, items: &Vec<Value>, start: usize, fuel: u64) -> (r: Result<
    Vec<EvaluatedValue>,
    EvalError,
>)
    requires
        start <= items@.len(),
    ensures
        ({
            let sr = spec_eval_seq(
                deep_body(items@).subrange(start as int, items@.len() as int),
                old(env).deep(),
                fuel as nat,
            );
            final(env).deep() == sr.1 && (match r {
                Ok(vs) => sr.0 == Ok::<Seq<Val>, ErrV>(deep_vals(vs@)),
                Err(e) => sr.0 == Err::<Seq<Val>, ErrV>(e.deep()),
            })
        }),
    decreases fuel as int, items@.len() - start, 1int,
{
    proof {
        lemma_deep_body(items@);
    }
    let ghost es = deep_body(items@).subrange(start as int, items@.len() as int);
    if start >= items.len() {
        let empty_out: Vec<EvaluatedValue> = Vec::new();
        proof {
            assert(deep_vals(empty_out@) =~= Seq::<Val>::empty());
        }
        return Ok(empty_out);
    }
    proof {
        assert(es[0] == deep_body(items@)[start as int]);
        assert(deep_body(items@)[start as int] == items@[start as int].deep());
        assert(es.drop_first() =~= deep_body(items@).subrange(
            start + 1,
            items@.len() as int,
        ));
    }
    let v = match evaluate_expression(&items[start], env, fuel) {
        Ok(v) => v,
        Err(e) => {
            return Err(e);
        },
    };
    match eval_seq(env, items, start + 1, fuel) {
        Ok(rest) => {
            let ghost rest0 = rest@;
            let ghost vdeep = v.deep();
            let mut rest = rest;
            let mut out: Vec<EvaluatedValue> = Vec::new();
            out.push(v);
            out.append(&mut rest);
            proof {
                assert(out@ =~= seq![out@[0]] + rest0);
                lemma_deep_vals(out@);
                lemma_deep_vals(rest0);
                assert forall|k: int| 0 <= k < out@.len() implies deep_vals(out@)[k] == (
                seq![vdeep] + deep_vals(rest0))[k] by {
                    assert(deep_vals(out@)[k] == out@[k].deep());
                    if k > 0 {
                        assert(out@[k] == rest0[k - 1]);
                        assert(deep_vals(rest0)[k - 1] == rest0[k - 1].deep());
                    }
                }
                assert(deep_vals(out@) =~= seq![vdeep] + deep_vals(rest0));
            }
            Ok(out)
        },
        Err(e) => Err(e),
    }
}

/// Each expression of `body[i..]` in order; the last one's value.
fn eval_body(env: &mut EvalEnvironment, body: &Vec<Value>, i: usize, fuel: u64) -> (r: Result<
    EvaluatedValue,
    EvalError,
>)
    requires
        i <= body@.len(),
    ensures
        ({
            let sr = spec_eval_body(
                deep_body(body@).subrange(i as int, body@.len() as int),
                old(env).deep(),
                fuel as nat,
            );
            final(env).deep() == sr.1 && (match r {
                Ok(v) => sr.0 == Ok::<Val, ErrV>(v.deep()),
                Err(e) => sr.0 == Err::<Val, ErrV>(e.deep()),
            })
        }),
    decreases fuel as int, body@.len() - i, 1int,
{
    proof {
        lemma_deep_body(body@);
    }
    let ghost es = deep_body(body@).subrange(i as int, body@.len() as int);
    if i >= body.len() {
        return Ok(EvaluatedValue::Nil);
    }
    proof {
        assert(es[0] == deep_body(body@)[i as int]);
        assert(deep_body(body@)[i as int] == body@[i as int].deep());
        assert(es.drop_first() =~= deep_body(body@).subrange(i + 1, body@.len() as int));
    }
    match evaluate_expression(&body[i], env, fuel) {
        Err(e) => Err(e),
        Ok(v) => {
            if i + 1 == body.len() {
                Ok(v)
            } else {
                eval_body(env, body, i + 1, fuel)
            }
        },
    }
}

/// Binds the `i`th and following parameters.
fn bind_params(
    env: &mut EvalEnvironment,
    params: &Vec<(String, Option<Value>)>,
    args: &Vec<Value>,
    argstart: usize,
    i: usize,
    fuel: u64,
) -> (r: Option<EvalError>)
    requires
        argstart <= args@.len(),
    ensures
        ({
            let sr = spec_bind_params(
                params_view(params@),
                deep_body(args@).subrange(argstart as int, args@.len() as int),
                i as int,
                old(env).deep(),
                fuel as nat,
            );
            final(env).deep() == sr.1 && (match r {
                None => sr.0 is None,
                Some(e) => sr.0 == Some(e.deep()),
            })
        }),
    decreases fuel as int, params@.len() - i, 1int,
{
    proof {
        lemma_deep_body(args@);
    }
    let ghost sargs = deep_body(args@).subrange(argstart as int, args@.len() as int);
    if i >= params.len() {
        return None;
    }
    let value = if i < args.len() - argstart {
        proof {
            assert(sargs[i as int] == deep_body(args@)[argstart + i]);
            assert(deep_body(args@)[argstart + i] == args@[argstart + i].deep());
        }
        match evaluate_expression(&args[argstart + i], env, fuel) {
            Ok(v) => v,
            Err(e) => {
                return Some(e);
            },
        }
    } else {
        match &params[i].1 {
            Some(d) => match evaluate_expression(d, env, fuel) {
                Ok(v) => v,
                Err(e) => {
                    return Some(e);
                },
            },
            None => {
                env.push_output(String::from_str("missing argument with no default value"));
                EvaluatedValue::Nil
            },
        }
    };
    let name = params[i].0.clone();
    env.set_local(name, value);
    bind_params(env, params, args, argstart, i + 1, fuel)
}

/// Sums or subtracts the remaining arguments onto `acc`.
fn arith(
    env: &mut EvalEnvironment,
    args: &Vec<Value>,
    argstart: usize,
    i: usize,
    acc: Num,
    fuel: u64,
    sub: bool,
) -> (r: Result<EvaluatedValue, EvalError>)
    requires
        argstart <= args@.len(),
    ensures
        ({
            let sr = spec_arith(
                deep_body(args@).subrange(argstart as int, args@.len() as int),
                i as int,
                acc.value(),
                old(env).deep(),
                fuel as nat,
                sub,
            );
            final(env).deep() == sr.1 && (match r {
                Ok(v) => sr.0 == Ok::<Val, ErrV>(v.deep()),
                Err(e) => sr.0 == Err::<Val, ErrV>(e.deep()),
            })
        }),
    decreases fuel as int, args@.len() - argstart - i, 1int,
{
    proof {
        lemma_deep_body(args@);
    }
    let ghost sargs = deep_body(args@).subrange(argstart as int, args@.len() as int);
    if i >= args.len() - argstart {
        if sub && args.len() - argstart == 1 {
            match acc.checked_neg() {
                Some(n) => {
                    return Ok(EvaluatedValue::Number(n));
                },
                None => {
                    return Err(EvalError::Fatal(Fatal::Overflow));
                },
            }
        }
        return Ok(EvaluatedValue::Number(acc));
    }
    proof {
        assert(sargs[i as int] == deep_body(args@)[argstart + i]);
        assert(deep_body(args@)[argstart + i] == args@[argstart + i].deep());
    }
    let v = match evaluate_expression(&args[argstart + i], env, fuel) {
        Ok(v) => v,
        Err(e) => {
            return Err(e);
        },
    };
    let x = match crate::eval::cast_number(&v) {
        Ok(x) => x,
        Err(e) => {
            return Err(e);
        },
    };
    let s = if sub {
        acc.checked_sub(x)
    } else {
        acc.checked_add(x)
    };
    match s {
        Some(n) => arith(env, args, argstart, i + 1, n, fuel, sub),
        None => Err(EvalError::Fatal(Fatal::Overflow)),
    }
}

/// A built-in function applied to the argument expressions
/// `args[argstart..]`.
#[verifier::rlimit(60)]
fn native_call(
    env: &mut EvalEnvironment,
    op: NativeOp,
    args: &Vec<Value>,
    argstart: usize,
    fuel: u64,
) -> (r: Result<EvaluatedValue, EvalError>)
    requires
        argstart <= args@.len(),
        fuel >= 1,
    ensures
        ({
            let sr = spec_native(
                op,
                deep_body(args@).subrange(argstart as int, args@.len() as int),
                old(env).deep(),
                fuel as nat,
            );
            final(env).deep() == sr.1 && (match r {
                Ok(v) => sr.0 == Ok::<Val, ErrV>(v.deep()),
                Err(e) => sr.0 == Err::<Val, ErrV>(e.deep()),
            })
        }),
    decreases fuel as int, 0int, 0int,
{
    proof {
        lemma_deep_body(args@);
    }
    let ghost sargs = deep_body(args@).subrange(argstart as int, args@.len() as int);
    let nargs = args.len() - argstart;
    proof {
        assert(sargs.len() == nargs);
        assert forall|k: int| 0 <= k < nargs implies sargs[k] == #[trigger] args@[
            argstart + k
        ].deep() by {
            assert(deep_body(args@)[argstart + k] == args@[argstart + k].deep());
        }
    }
    match op {
        NativeOp::Print => {
            match eval_seq(env, args, argstart, fuel - 1) {
                Err(e) => Err(e),
                Ok(vals) => {
                    let line = print_line_string(&vals);
                    env.push_output(line);
                    Ok(EvaluatedValue::Nil)
                },
            }
        },
        NativeOp::Add | NativeOp::Sub => {
            let sub = match op {
                NativeOp::Sub => true,
                _ => false,
            };
            if nargs == 0 {
                return Err(EvalError::Fatal(Fatal::Arity));
            }
            let v = match evaluate_expression(&args[argstart], env, fuel - 1) {
                Ok(v) => v,
                Err(e) => {
                    return Err(e);
                },
            };
            let x = match crate::eval::cast_number(&v) {
                Ok(x) => x,
                Err(e) => {
                    return Err(e);
                },
            };
            arith(env, args, argstart, 1, x, fuel - 1, sub)
        },
        NativeOp::Cond => {
            if nargs > 3 || nargs == 0 {
                return Err(EvalError::Fatal(Fatal::Arity));
            }
            let c = match evaluate_expression(&args[argstart], env, fuel - 1) {
                Ok(v) => v,
                Err(e) => {
                    return Err(e);
                },
            };
            let t = match truthy_cond(&c) {
                Ok(t) => t,
                Err(e) => {
                    return Err(e);
                },
            };
            if t {
                if nargs < 2 {
                    return Err(EvalError::Fatal(Fatal::Arity));
                }
                evaluate_expression(&args[argstart + 1], env, fuel - 1)
            } else {
                if nargs < 3 {
                    return Ok(EvaluatedValue::Nil);
                }
                evaluate_expression(&args[argstart + 2], env, fuel - 1)
            }
        },
        NativeOp::Eq => {
            if nargs != 2 {
                return Err(EvalError::Fatal(Fatal::Arity));
            }
            let b = match evaluate_expression(&args[argstart + 1], env, fuel - 1) {
                Ok(v) => v,
                Err(e) => {
                    return Err(e);
                },
            };
            let a = match evaluate_expression(&args[argstart], env, fuel - 1) {
                Ok(v) => v,
                Err(e) => {
                    return Err(e);
                },
            };
            match eq_semantics(&a, &b) {
                Err(e) => Err(e),
                Ok(t) => {
                    if t {
                        Ok(EvaluatedValue::Number(Num { raw: MICRO }))
                    } else {
                        Ok(EvaluatedValue::Nil)
                    }
                },
            }
        },
        NativeOp::Nth => {
            if nargs != 2 {
                return Err(EvalError::Fatal(Fatal::Arity));
            }
            let iv = match evaluate_expression(&args[argstart], env, fuel - 1) {
                Ok(v) => v,
                Err(e) => {
                    return Err(e);
                },
            };
            match iv {
                EvaluatedValue::Number(n) => {
                    let vv = match evaluate_expression(&args[argstart + 1], env, fuel - 1) {
                        Ok(v) => v,
                        Err(e) => {
                            return Err(e);
                        },
                    };
                    match vv {
                        EvaluatedValue::Vector(items) => {
                            proof {
                                lemma_deep_vals(items@);
                            }
                            let idx = n.floor_index();
                            if idx < items.len() as u64 {
                                proof {
                                    assert(deep_vals(items@)[idx as int] == items@[
                                        idx as int
                                    ].deep());
                                }
                                Ok(crate::eval::value_copy(&items[idx as usize]))
                            } else {
                                Ok(EvaluatedValue::Nil)
                            }
                        },
                        _ => Err(EvalError::Fatal(Fatal::Type)),
                    }
                },
                _ => Err(EvalError::Fatal(Fatal::Type)),
            }
        },
        NativeOp::Polygon => {
            if nargs != 1 && nargs != 2 {
                return Err(EvalError::Fatal(Fatal::Arity));
            }
            let pos = match cur_pos_from(env.get_variable("CURRENT_POSITION")) {
                Ok(p) => p,
                Err(e) => {
                    return Err(e);
                },
            };
            let order: Option<Vec<u64>> = if nargs == 2 {
                let ov = match evaluate_expression(&args[argstart + 1], env, fuel - 1) {
                    Ok(v) => v,
                    Err(e) => {
                        return Err(e);
                    },
                };
                match order_of(&ov) {
                    Ok(o) => Some(o),
                    Err(e) => {
                        return Err(e);
                    },
                }
            } else {
                None
            };
            let pv = match evaluate_expression(&args[argstart], env, fuel - 1) {
                Ok(v) => v,
                Err(e) => {
                    return Err(e);
                },
            };
            let points = match points_of(&pv) {
                Ok(ps) => ps,
                Err(e) => {
                    return Err(e);
                },
            };
            let poly = Polygon(points, order, (pos.0, pos.1, pos.2));
            let result = EvaluatedValue::Native(NativeValue::Polygon(poly));
            proof {
                let sr = spec_native(op, sargs, old(env).deep(), fuel as nat);
                assert(result.deep() is Native);
            }
            Ok(result)
        },
        NativeOp::Extrude => {
            if nargs != 2 {
                return Err(EvalError::Fatal(Fatal::Arity));
            }
            let hv = match evaluate_expression(&args[argstart], env, fuel - 1) {
                Ok(v) => v,
                Err(e) => {
                    return Err(e);
                },
            };
            match hv {
                EvaluatedValue::Number(h) => {
                    let vv = match evaluate_expression(&args[argstart + 1], env, fuel - 1) {
                        Ok(v) => v,
                        Err(e) => {
                            return Err(e);
                        },
                    };
                    match vv {
                        EvaluatedValue::Native(nv) => match nv {
                            NativeValue::Polygon(p) => Ok(
                                EvaluatedValue::Native(NativeValue::Extrude(p, h)),
                            ),
                            NativeValue::Extrude(_, _) => Err(
                                EvalError::Fatal(Fatal::UnsupportedNative),
                            ),
                        },
                        _ => Err(EvalError::Fatal(Fatal::Type)),
                    }
                },
                _ => Err(EvalError::Fatal(Fatal::Type)),
            }
        },
    }
}

/// A call: a fresh local scope around parameter binding and the body,
/// popped on every way out.
pub fn call_function(
    env: &mut EvalEnvironment,
    f: &EvalFunction,
    args: &Vec<Value>,
    argstart: usize,
    fuel: u64,
) -> (r: Result<EvaluatedValue, EvalError>)
    requires
        argstart <= args@.len(),
    ensures
        ({
            let sr = spec_call(
                f.deep(),
                deep_body(args@).subrange(argstart as int, args@.len() as int),
                old(env).deep(),
                fuel as nat,
            );
            final(env).deep() == sr.1 && (match r {
                Ok(v) => sr.0 == Ok::<Val, ErrV>(v.deep()),
                Err(e) => sr.0 == Err::<Val, ErrV>(e.deep()),
            })
        }),
    decreases fuel as int, 0int, 1int,
{
    if fuel == 0 {
        return Err(EvalError::Fatal(Fatal::Depth));
    }
    env.push_defs();
    let rv = match f {
        EvalFunction::LispFunction(lf) => {
            match bind_params(env, &lf.arguments, args, argstart, 0, fuel - 1) {
                Some(e) => Err(e),
                None => {
                    proof {
                        lemma_deep_body(lf.body@);
                        assert(deep_body(lf.body@).subrange(
                            0,
                            lf.body@.len() as int,
                        ) =~= deep_body(lf.body@));
                    }
                    eval_body(env, &lf.body, 0, fuel - 1)
                },
            }
        },
        EvalFunction::NativeFunction(op) => native_call(env, *op, args, argstart, fuel),
    };
    env.pop_defs();
    rv
}


impl Default for EvalEnvironment {
    /// A fresh environment: `nil`, `t` and `CURRENT_POSITION` preset,
    /// and the built-ins registered.
    fn default() -> (r: Self)
        ensures
            r.deep() == spec_default_env(),
    {
        let mut env = EvalEnvironment {
            functions: Vec::new(),
            variables: Vec::new(),
            locals: Vec::new(),
            output: Vec::new(),
        };
        env.set_variable(String::from_str("nil"), EvaluatedValue::Nil);
        env.set_variable(String::from_str("t"), EvaluatedValue::True);
        env.set_function(
            String::from_str("print"),
            EvalFunction::NativeFunction(NativeOp::Print),
        );
        env.set_function(String::from_str("+"), EvalFunction::NativeFunction(NativeOp::Add));
        env.set_function(String::from_str("-"), EvalFunction::NativeFunction(NativeOp::Sub));
        env.set_function(String::from_str("?"), EvalFunction::NativeFunction(NativeOp::Cond));
        env.set_function(String::from_str("=="), EvalFunction::NativeFunction(NativeOp::Eq));
        env.set_function(String::from_str("nth"), EvalFunction::NativeFunction(NativeOp::Nth));
        let origin = EvaluatedValue::Vector(
            vec![
                EvaluatedValue::Number(Num { raw: 0 }),
                EvaluatedValue::Number(Num { raw: 0 }),
                EvaluatedValue::Number(Num { raw: 0 }),
            ],
        );
        proof {
            assert(origin.deep() == Val::Vector(
                seq![Val::Number(0), Val::Number(0), Val::Number(0)],
            )) by {
                match origin {
                    EvaluatedValue::Vector(items) => {
                        crate::eval::lemma_deep_vals(items@);
                        assert(deep_vals(items@)[0] == items@[0].deep());
                        assert(deep_vals(items@)[1] == items@[1].deep());
                        assert(deep_vals(items@)[2] == items@[2].deep());
                        assert(deep_vals(items@) =~= seq![
                            Val::Number(0),
                            Val::Number(0),
                            Val::Number(0),
                        ]);
                    },
                    _ => {},
                }
            }
        }
        env.set_variable(String::from_str("CURRENT_POSITION"), origin);
        env.set_function(
            String::from_str("polygon"),
            EvalFunction::NativeFunction(NativeOp::Polygon),
        );
        env.set_function(
            String::from_str("extrude"),
            EvalFunction::NativeFunction(NativeOp::Extrude),
        );
        proof {
            assert(env.deep().locals =~= spec_default_env().locals);
            assert(env.deep().output =~= spec_default_env().output);
            assert(env.deep().variables =~= spec_default_env().variables);
            assert(env.deep().functions =~= spec_default_env().functions);
        }
        env
    }
}

/// The top-level expressions of `parsed[i..]`, each with the full depth
/// budget, collecting every value.
fn run_from(env: &mut EvalEnvironment, parsed: &Vec<Value>, i: usize) -> (r: Result<
    Vec<EvaluatedValue>,
    EvalError,
>)
    requires
        i <= parsed@.len(),
    ensures
        ({
            let sr = spec_run(
                deep_body(parsed@).subrange(i as int, parsed@.len() as int),
                old(env).deep(),
            );
            final(env).deep() == sr.1 && (match r {
                Ok(vs) => sr.0 == Ok::<Seq<Val>, ErrV>(deep_vals(vs@)),
                Err(e) => sr.0 == Err::<Seq<Val>, ErrV>(e.deep()),
            })
        }),
    decreases parsed@.len() - i,
{
    proof {
        lemma_deep_body(parsed@);
    }
    let ghost es = deep_body(parsed@).subrange(i as int, parsed@.len() as int);
    if i >= parsed.len() {
        let empty_out: Vec<EvaluatedValue> = Vec::new();
        proof {
            assert(deep_vals(empty_out@) =~= Seq::<Val>::empty());
        }
        return Ok(empty_out);
    }
    proof {
        assert(es[0] == deep_body(parsed@)[i as int]);
        assert(deep_body(parsed@)[i as int] == parsed@[i as int].deep());
        assert(es.drop_first() =~= deep_body(parsed@).subrange(i + 1, parsed@.len() as int));
    }
    let v = match evaluate_expression(&parsed[i], env, EVAL_FUEL) {
        Ok(v) => v,
        Err(e) => {
            return Err(e);
        },
    };
    match run_from(env, parsed, i + 1) {
        Ok(rest) => {
            let ghost rest0 = rest@;
            let ghost vdeep = v.deep();
            let mut rest = rest;
            let mut out: Vec<EvaluatedValue> = Vec::new();
            out.push(v);
            out.append(&mut rest);
            proof {
                assert(out@ =~= seq![out@[0]] + rest0);
                lemma_deep_vals(out@);
                lemma_deep_vals(rest0);
                assert forall|k: int| 0 <= k < out@.len() implies deep_vals(out@)[k] == (
                seq![vdeep] + deep_vals(rest0))[k] by {
                    assert(deep_vals(out@)[k] == out@[k].deep());
                    if k > 0 {
                        assert(out@[k] == rest0[k - 1]);
                        assert(deep_vals(rest0)[k - 1] == rest0[k - 1].deep());
                    }
                }
                assert(deep_vals(out@) =~= seq![vdeep] + deep_vals(rest0));
            }
            Ok(out)
        },
        Err(e) => Err(e),
    }
}

/// Evaluates a whole program in a fresh environment, yielding each
/// top-level value and the lines `print` produced.
pub fn evaluate_with_output(parsed: Vec<Value>) -> (r: (
    Result<Vec<EvaluatedValue>, EvalError>,
    Vec<String>,
))
    ensures
        ({
            let sr = spec_run(deep_body(parsed@), spec_default_env());
            (match r.0 {
                Ok(vs) => sr.0 == Ok::<Seq<Val>, ErrV>(deep_vals(vs@)),
                Err(e) => sr.0 == Err::<Seq<Val>, ErrV>(e.deep()),
            }) && Seq::new(r.1@.len(), |i: int| r.1@[i]@) == sr.1.output
        }),
{
    let mut env = EvalEnvironment::default();
    proof {
        lemma_deep_body(parsed@);
        assert(deep_body(parsed@).subrange(0, parsed@.len() as int) =~= deep_body(parsed@));
    }
    let result = run_from(&mut env, &parsed, 0);
    (result, env.output)
}

/// Evaluates a whole program in a fresh environment, yielding each
/// top-level value in order.
pub fn evaluate(parsed: Vec<Value>) -> (r: Result<Vec<EvaluatedValue>, EvalError>)
    ensures
        match r {
            Ok(vs) => spec_evaluate(deep_body(parsed@)) == Ok::<Seq<Val>, ErrV>(deep_vals(vs@)),
            Err(e) => spec_evaluate(deep_body(parsed@)) == Err::<Seq<Val>, ErrV>(e.deep()),
        },
{
    let r = evaluate_with_output(parsed);
    r.0
}

} // verus!
