//! Evaluated values, the evaluation environment, and the evaluator's
//! error taxonomy.

use vstd::prelude::*;
use vstd::string::StringExecFns;

use crate::num::MICRO;
use crate::num::Num;
use crate::parse::Value;
use crate::parse::ValueV;

verus! {

/// An evaluated value: nil (also false), canonical true, a number, an
/// ordered vector, or an opaque native geometric value.
#[derive(Debug)]
pub enum EvaluatedValue {
    Number(Num),
    Vector(Vec<EvaluatedValue>),
    Nil,
    True,
    Native(NativeValue),
}

/// A native geometric value.
#[derive(Debug)]
pub enum NativeValue {
    Polygon(Polygon),
    Extrude(Polygon, Num),
}

/// A polygon: its (x, y) vertices, an optional point-index order
/// (stored, never consumed downstream), and the origin offset captured
/// at construction.
#[derive(Debug)]
pub struct Polygon(pub Vec<(Num, Num)>, pub Option<Vec<u64>>, pub (Num, Num, Num));

/// The mathematical shape of an evaluated value, numbers as integers in
/// millionths.
pub enum Val {
    Number(int),
    Vector(Seq<Val>),
    Nil,
    True,
    Native(NativeV),
}

/// The shape of a native value.
pub enum NativeV {
    Polygon(PolyV),
    Extrude(PolyV, int),
}

/// The shape of a polygon.
pub struct PolyV {
    pub points: Seq<(int, int)>,
    pub order: Option<Seq<int>>,
    pub pos: (int, int, int),
}

impl Polygon {
    /// The shape of this polygon.
    pub open spec fn deep(self) -> PolyV {
        PolyV {
            points: Seq::new(self.0@.len(), |i: int| (self.0@[i].0.value(), self.0@[i].1.value())),
            order: match self.1 {
                Some(o) => Some(Seq::new(o@.len(), |i: int| o@[i] as int)),
                None => None,
            },
            pos: (self.2.0.value(), self.2.1.value(), self.2.2.value()),
        }
    }
}

impl NativeValue {
    /// The shape of this native value.
    pub open spec fn deep(self) -> NativeV {
        match self {
            NativeValue::Polygon(p) => NativeV::Polygon(p.deep()),
            NativeValue::Extrude(p, h) => NativeV::Extrude(p.deep(), h.value()),
        }
    }
}

/// The shapes of a sequence of evaluated values.
pub open spec fn deep_vals(s: Seq<EvaluatedValue>) -> Seq<Val>
    decreases s,
{
    if s.len() == 0 {
        Seq::empty()
    } else {
        deep_vals(s.drop_last()).push(s.last().deep())
    }
}

impl EvaluatedValue {
    /// The shape of this value.
    pub open spec fn deep(self) -> Val
        decreases self,
    {
        match self {
            EvaluatedValue::Number(n) => Val::Number(n.value()),
            EvaluatedValue::Vector(items) => Val::Vector(deep_vals(items@)),
            EvaluatedValue::Nil => Val::Nil,
            EvaluatedValue::True => Val::True,
            EvaluatedValue::Native(n) => Val::Native(n.deep()),
        }
    }
}

/// `deep_vals` is the element-wise shape of the sequence.
pub proof fn lemma_deep_vals(s: Seq<EvaluatedValue>)
    ensures
        deep_vals(s).len() == s.len(),
        forall|i: int| 0 <= i < s.len() ==> deep_vals(s)[i] == #[trigger] s[i].deep(),
    decreases s,
{
    if s.len() > 0 {
        lemma_deep_vals(s.drop_last());
        assert forall|i: int| 0 <= i < s.len() implies deep_vals(s)[i] == #[trigger] s[i].deep()
        by {
            if i < s.len() - 1 {
                assert(s.drop_last()[i] == s[i]);
            } else {
                assert(s[i] == s.last());
            }
        }
    }
}

/// A vector stands above each of its items in the termination order.
proof fn lemma_val_child_decreases(v: &EvaluatedValue, items: &Vec<EvaluatedValue>, i: int)
    requires
        *v == EvaluatedValue::Vector(*items),
        0 <= i < items@.len(),
    ensures
        decreases_to!(*v => items@[i]),
{
    assert(decreases_to!(*v => v->Vector_0));
    assert(v->Vector_0 == *items);
    assert(decreases_to!(*items => items@));
    assert(decreases_to!(items@ => items@[i]));
}

/// Structural equality of two polygons, decided on their shapes.
pub fn polygon_eq(a: &Polygon, b: &Polygon) -> (r: bool)
    ensures
        r == (a.deep() == b.deep()),
{
    if a.0.len() != b.0.len() {
        proof {
            assert(a.deep().points.len() != b.deep().points.len());
        }
        return false;
    }
    let n = a.0.len();
    for i in 0..n
        invariant
            n == a.0@.len() == b.0@.len(),
            forall|j: int| 0 <= j < i ==> #[trigger] a.deep().points[j] == b.deep().points[j],
    {
        let pa = &a.0[i];
        let pb = &b.0[i];
        if pa.0.raw != pb.0.raw || pa.1.raw != pb.1.raw {
            proof {
                assert(a.deep().points[i as int] != b.deep().points[i as int]);
            }
            return false;
        }
    }
    proof {
        assert(a.deep().points =~= b.deep().points);
    }
    let order_ok = match (&a.1, &b.1) {
        (Option::None, Option::None) => true,
        (Option::Some(oa), Option::Some(ob)) => {
            if oa.len() != ob.len() {
                proof {
                    assert(a.deep().order matches Some(s) && b.deep().order matches Some(t)
                        && s.len() != t.len());
                }
                false
            } else {
                let m = oa.len();
                let mut same = true;
                for i in 0..m
                    invariant
                        m == oa@.len() == ob@.len(),
                        a.1 == Some(*oa),
                        b.1 == Some(*ob),
                        same == (forall|j: int|
                            0 <= j < i ==> #[trigger] oa@[j] == ob@[j]),
                {
                    if oa[i] != ob[i] {
                        same = false;
                    }
                }
                proof {
                    if same {
                        assert(a.deep().order->0 =~= b.deep().order->0);
                    } else {
                        let j = choose|j: int| 0 <= j < m && #[trigger] oa@[j] != ob@[j];
                        assert(a.deep().order->0[j] != b.deep().order->0[j]);
                    }
                }
                same
            }
        },
        _ => {
            proof {
                assert((a.deep().order is Some) != (b.deep().order is Some));
            }
            false
        },
    };
    if !order_ok {
        return false;
    }
    let pos_ok = a.2.0.raw == b.2.0.raw && a.2.1.raw == b.2.1.raw && a.2.2.raw == b.2.2.raw;
    if pos_ok {
        proof {
            assert(a.deep() == b.deep());
        }
        true
    } else {
        false
    }
}

/// Structural equality of two native values, decided on their shapes.
pub fn native_eq(a: &NativeValue, b: &NativeValue) -> (r: bool)
    ensures
        r == (a.deep() == b.deep()),
{
    match a {
        NativeValue::Polygon(pa) => match b {
            NativeValue::Polygon(pb) => polygon_eq(pa, pb),
            _ => false,
        },
        NativeValue::Extrude(pa, ha) => match b {
            NativeValue::Extrude(pb, hb) => polygon_eq(pa, pb) && ha.raw == hb.raw,
            _ => false,
        },
    }
}

/// Structural equality of two evaluated values, decided on their shapes.
pub fn values_eq(a: &EvaluatedValue, b: &EvaluatedValue) -> (r: bool)
    ensures
        r == (a.deep() == b.deep()),
    decreases a,
{
    match a {
        EvaluatedValue::Number(x) => match b {
            EvaluatedValue::Number(y) => x.raw == y.raw,
            _ => false,
        },
        EvaluatedValue::Nil => match b {
            EvaluatedValue::Nil => true,
            _ => false,
        },
        EvaluatedValue::True => match b {
            EvaluatedValue::True => true,
            _ => false,
        },
        EvaluatedValue::Native(x) => match b {
            EvaluatedValue::Native(y) => native_eq(x, y),
            _ => false,
        },
        EvaluatedValue::Vector(x) => match b {
            EvaluatedValue::Vector(y) => {
                proof {
                    lemma_deep_vals(x@);
                    lemma_deep_vals(y@);
                }
                if x.len() != y.len() {
                    return false;
                }
                let n = x.len();
                for i in 0..n
                    invariant
                        n == x@.len() == y@.len(),
                        deep_vals(x@).len() == n,
                        deep_vals(y@).len() == n,
                        forall|j: int| 0 <= j < i ==> deep_vals(x@)[j] == deep_vals(y@)[j],
                        *a == EvaluatedValue::Vector(*x),
                        *b == EvaluatedValue::Vector(*y),
                        a.deep() == Val::Vector(deep_vals(x@)),
                        b.deep() == Val::Vector(deep_vals(y@)),
                {
                    proof {
                        lemma_deep_vals(x@);
                        lemma_deep_vals(y@);
                        lemma_val_child_decreases(a, x, i as int);
                    }
                    if !values_eq(&x[i], &y[i]) {
                        proof {
                            assert(deep_vals(x@)[i as int] != deep_vals(y@)[i as int]);
                        }
                        return false;
                    }
                }
                proof {
                    assert(deep_vals(x@) =~= deep_vals(y@));
                }
                true
            },
            _ => false,
        },
    }
}

/// An exact copy of an evaluated value.
pub fn value_copy(v: &EvaluatedValue) -> (r: EvaluatedValue)
    ensures
        r.deep() == v.deep(),
    decreases v,
{
    match v {
        EvaluatedValue::Number(n) => EvaluatedValue::Number(*n),
        EvaluatedValue::Nil => EvaluatedValue::Nil,
        EvaluatedValue::True => EvaluatedValue::True,
        EvaluatedValue::Native(n) => EvaluatedValue::Native(native_copy(n)),
        EvaluatedValue::Vector(items) => {
            proof {
                lemma_deep_vals(items@);
            }
            let n = items.len();
            let mut out: Vec<EvaluatedValue> = Vec::new();
            for i in 0..n
                invariant
                    n == items@.len(),
                    out@.len() == i,
                    deep_vals(items@).len() == n,
                    forall|j: int| 0 <= j < i ==> #[trigger] out@[j].deep() == deep_vals(
                        items@,
                    )[j],
                    *v == EvaluatedValue::Vector(*items),
                    v.deep() == Val::Vector(deep_vals(items@)),
            {
                proof {
                    lemma_deep_vals(items@);
                    lemma_val_child_decreases(v, items, i as int);
                }
                let c = value_copy(&items[i]);
                out.push(c);
            }
            proof {
                lemma_deep_vals(out@);
                lemma_deep_vals(items@);
                assert forall|j: int| 0 <= j < n implies deep_vals(out@)[j] == deep_vals(
                    items@,
                )[j] by {
                    assert(out@[j].deep() == deep_vals(items@)[j]);
                }
                assert(deep_vals(out@) =~= deep_vals(items@));
            }
            EvaluatedValue::Vector(out)
        },
    }
}

/// An exact copy of a native value.
pub fn native_copy(n: &NativeValue) -> (r: NativeValue)
    ensures
        r.deep() == n.deep(),
{
    match n {
        NativeValue::Polygon(p) => NativeValue::Polygon(polygon_copy(p)),
        NativeValue::Extrude(p, h) => NativeValue::Extrude(polygon_copy(p), *h),
    }
}

/// An exact copy of a polygon.
pub fn polygon_copy(p: &Polygon) -> (r: Polygon)
    ensures
        r.deep() == p.deep(),
{
    let n = p.0.len();
    let mut points: Vec<(Num, Num)> = Vec::new();
    for i in 0..n
        invariant
            n == p.0@.len(),
            points@.len() == i,
            forall|j: int| 0 <= j < i ==> #[trigger] points@[j] == p.0@[j],
    {
        points.push((p.0[i].0, p.0[i].1));
    }
    let order: Option<Vec<u64>> = match &p.1 {
        Option::Some(o) => {
            let m = o.len();
            let mut ord: Vec<u64> = Vec::new();
            for i in 0..m
                invariant
                    m == o@.len(),
                    ord@.len() == i,
                    forall|j: int| 0 <= j < i ==> #[trigger] ord@[j] == o@[j],
            {
                ord.push(o[i]);
            }
            proof {
                assert(ord@ =~= o@);
            }
            Some(ord)
        },
        Option::None => None,
    };
    let r = Polygon(points, order, (p.2.0, p.2.1, p.2.2));
    proof {
        assert(r.deep().points =~= p.deep().points);
        if r.1 is Some {
            assert(r.deep().order->0 =~= p.deep().order->0);
        }
        assert(r.deep() == p.deep());
    }
    r
}

/// A user-defined function: named parameters with optional default
/// expressions, and a body of expressions.
#[derive(Debug)]
pub struct LispFunction {
    pub arguments: Vec<(String, Option<Value>)>,
    pub body: Vec<Value>,
}

/// The shapes of a parameter list.
pub open spec fn params_view(s: Seq<(String, Option<Value>)>) -> Seq<(Seq<char>, Option<ValueV>)> {
    Seq::new(
        s.len(),
        |i: int|
            (
                s[i].0@,
                match s[i].1 {
                    Some(d) => Some(d.deep()),
                    None => None,
                },
            ),
    )
}

impl LispFunction {
    pub fn new(arguments: Vec<(String, Option<Value>)>, body: Vec<Value>) -> (r: Self)
        ensures
            r.arguments == arguments,
            r.body == body,
    {
        Self { arguments, body }
    }

    /// The shape of this function.
    pub open spec fn deep(self) -> LispV {
        LispV {
            params: params_view(self.arguments@),
            body: crate::parse::deep_body(self.body@),
        }
    }
}

/// The shape of a user-defined function.
pub struct LispV {
    pub params: Seq<(Seq<char>, Option<ValueV>)>,
    pub body: Seq<ValueV>,
}

/// The built-in functions.
#[derive(Debug, Clone, Copy, PartialEq, Eq, Structural)]
pub enum NativeOp {
    Print,
    Add,
    Sub,
    Cond,
    Eq,
    Nth,
    Polygon,
    Extrude,
}

/// A callable: a user-defined function or a built-in.
#[derive(Debug)]
pub enum EvalFunction {
    LispFunction(LispFunction),
    NativeFunction(NativeOp),
}

/// The shape of a callable.
pub enum FuncV {
    Lisp(LispV),
    Native(NativeOp),
}

impl EvalFunction {
    /// The shape of this callable.
    pub open spec fn deep(self) -> FuncV {
        match self {
            EvalFunction::LispFunction(f) => FuncV::Lisp(f.deep()),
            EvalFunction::NativeFunction(op) => FuncV::Native(op),
        }
    }
}

/// A fatal condition: the run stops at once.
#[derive(Debug, Clone, Copy, PartialEq, Eq, Structural)]
pub enum Fatal {
    /// Wrong number of arguments or malformed special-form shape.
    Arity,
    /// Wrong operand type.
    Type,
    /// An identifier with no binding.
    UnresolvedIdentifier,
    /// An operation a native value does not support.
    UnsupportedNative,
    /// Arithmetic outside the representable range.
    Overflow,
    /// Nesting beyond the evaluator's depth budget.
    Depth,
}

/// An evaluation failure.
#[derive(Debug)]
pub enum EvalError {
    /// `set`'s target was not an identifier.
    UnexpectedExpression(Value),
    /// A fatal condition.
    Fatal(Fatal),
}

/// The shape of an evaluation failure.
pub enum ErrV {
    Unexpected(ValueV),
    Fatal(Fatal),
}

impl EvalError {
    /// The shape of this failure.
    pub open spec fn deep(self) -> ErrV {
        match self {
            EvalError::UnexpectedExpression(v) => ErrV::Unexpected(v.deep()),
            EvalError::Fatal(f) => ErrV::Fatal(f),
        }
    }
}

/// Casts a value to a number: nil is zero, true is one; vectors and
/// native values have no numeric reading.
pub fn cast_number(a: &EvaluatedValue) -> (r: Result<Num, EvalError>)
    ensures
        match r {
            Ok(n) => spec_cast_number(a.deep()) == Ok::<int, ErrV>(n.value()),
            Err(e) => spec_cast_number(a.deep()) == Err::<int, ErrV>(e.deep()),
        },
{
    match a {
        EvaluatedValue::Nil => Ok(Num { raw: 0 }),
        EvaluatedValue::True => Ok(Num { raw: MICRO }),
        EvaluatedValue::Number(v) => Ok(*v),
        EvaluatedValue::Vector(_) => Err(EvalError::Fatal(Fatal::Type)),
        EvaluatedValue::Native(_) => Err(EvalError::Fatal(Fatal::Type)),
    }
}

/// The numeric reading of a value, in millionths.
pub open spec fn spec_cast_number(a: Val) -> Result<int, ErrV> {
    match a {
        Val::Nil => Ok(0),
        Val::True => Ok(MICRO as int),
        Val::Number(v) => Ok(v),
        Val::Vector(_) => Err(ErrV::Fatal(Fatal::Type)),
        Val::Native(_) => Err(ErrV::Fatal(Fatal::Type)),
    }
}

/// The evaluation environment: global functions and variables, a stack
/// of call-local scopes, and the lines `print` has produced.
#[derive(Debug)]
pub struct EvalEnvironment {
    pub functions: Vec<(String, EvalFunction)>,
    pub variables: Vec<(String, EvaluatedValue)>,
    pub locals: Vec<Vec<(String, EvaluatedValue)>>,
    pub output: Vec<String>,
}

/// The shape of an environment: association lists read as maps, later
/// bindings shadowing earlier ones.
pub struct EnvV {
    pub functions: Map<Seq<char>, FuncV>,
    pub variables: Map<Seq<char>, Val>,
    pub locals: Seq<Map<Seq<char>, Val>>,
    pub output: Seq<Seq<char>>,
}

/// An association list of values, read as a map.
pub open spec fn vals_view(s: Seq<(String, EvaluatedValue)>) -> Map<Seq<char>, Val>
    decreases s,
{
    if s.len() == 0 {
        Map::empty()
    } else {
        vals_view(s.drop_last()).insert(s.last().0@, s.last().1.deep())
    }
}

/// An association list of callables, read as a map.
pub open spec fn funcs_view(s: Seq<(String, EvalFunction)>) -> Map<Seq<char>, FuncV>
    decreases s,
{
    if s.len() == 0 {
        Map::empty()
    } else {
        funcs_view(s.drop_last()).insert(s.last().0@, s.last().1.deep())
    }
}

impl EvalEnvironment {
    /// The shape of this environment.
    pub open spec fn deep(self) -> EnvV {
        EnvV {
            functions: funcs_view(self.functions@),
            variables: vals_view(self.variables@),
            locals: Seq::new(self.locals@.len(), |i: int| vals_view(self.locals@[i]@)),
            output: Seq::new(self.output@.len(), |i: int| self.output@[i]@),
        }
    }
}

/// A map's binding for `k`, if any.
pub open spec fn map_get<V>(m: Map<Seq<char>, V>, k: Seq<char>) -> Option<V> {
    if m.contains_key(k) {
        Some(m[k])
    } else {
        None
    }
}

/// The binding of `name` in the local scopes, innermost first.
pub open spec fn lookup_scopes(locals: Seq<Map<Seq<char>, Val>>, name: Seq<char>) -> Option<Val>
    decreases locals,
{
    if locals.len() == 0 {
        None
    } else {
        match map_get(locals.last(), name) {
            Some(v) => Some(v),
            None => lookup_scopes(locals.drop_last(), name),
        }
    }
}

/// The binding of `name`: local scopes innermost first, then globals.
pub open spec fn lookup_var(env: EnvV, name: Seq<char>) -> Option<Val> {
    match lookup_scopes(env.locals, name) {
        Some(v) => Some(v),
        None => map_get(env.variables, name),
    }
}

/// Relies on `str`'s `PartialEq`: equality of the character sequences.
#[verifier::external_body]
pub(crate) fn str_eq(a: &str, b: &str) -> (r: bool)
    ensures
        r == (a@ == b@),
{
    a == b
}

/// The last binding of `name` in an association list of values.
fn assoc_get_val<'a>(s: &'a Vec<(String, EvaluatedValue)>, name: &str) -> (r: Option<
    &'a EvaluatedValue,
>)
    ensures
        match r {
            Some(v) => map_get(vals_view(s@), name@) == Some(v.deep()),
            None => map_get(vals_view(s@), name@) is None,
        },
{
    let mut i = s.len();
    proof {
        assert(s@.subrange(0, s@.len() as int) =~= s@);
    }
    while i > 0
        invariant
            i <= s@.len(),
            map_get(vals_view(s@), name@) == map_get(vals_view(s@.subrange(0, i as int)), name@),
        decreases i,
    {
        proof {
            let pre = s@.subrange(0, i as int);
            assert(pre.drop_last() =~= s@.subrange(0, i - 1));
            assert(pre.last() == s@[i - 1]);
        }
        if str_eq(s[i - 1].0.as_str(), name) {
            return Some(&s[i - 1].1);
        }
        i = i - 1;
    }
    proof {
        assert(s@.subrange(0, 0) =~= Seq::<(String, EvaluatedValue)>::empty());
    }
    None
}

/// The last binding of `name` in an association list of callables.
pub(crate) fn assoc_get_func<'a>(s: &'a Vec<(String, EvalFunction)>, name: &str) -> (r: Option<
    &'a EvalFunction,
>)
    ensures
        match r {
            Some(f) => map_get(funcs_view(s@), name@) == Some(f.deep()),
            None => map_get(funcs_view(s@), name@) is None,
        },
{
    let mut i = s.len();
    proof {
        assert(s@.subrange(0, s@.len() as int) =~= s@);
    }
    while i > 0
        invariant
            i <= s@.len(),
            map_get(funcs_view(s@), name@) == map_get(funcs_view(s@.subrange(0, i as int)), name@),
        decreases i,
    {
        proof {
            let pre = s@.subrange(0, i as int);
            assert(pre.drop_last() =~= s@.subrange(0, i - 1));
            assert(pre.last() == s@[i - 1]);
        }
        if str_eq(s[i - 1].0.as_str(), name) {
            return Some(&s[i - 1].1);
        }
        i = i - 1;
    }
    proof {
        assert(s@.subrange(0, 0) =~= Seq::<(String, EvalFunction)>::empty());
    }
    None
}

impl EvalEnvironment {
    /// Binds `name` to `value` in the global variables.
    pub fn set_variable(&mut self, name: String, value: EvaluatedValue)
        ensures
            final(self).deep() == (EnvV {
                variables: old(self).deep().variables.insert(name@, value.deep()),
                ..old(self).deep()
            }),
    {
        let ghost v0 = self.variables@;
        let ghost val = value.deep();
        self.variables.push((name, value));
        proof {
            assert(self.variables@.drop_last() =~= v0);
            assert(self.deep().locals =~= old(self).deep().locals);
            assert(self.deep().output =~= old(self).deep().output);
            assert(self.deep() == (EnvV {
                variables: old(self).deep().variables.insert(name@, val),
                ..old(self).deep()
            }));
        }
    }

    /// Binds `name` to `function` in the global function table.
    pub fn set_function(&mut self, name: String, function: EvalFunction)
        ensures
            final(self).deep() == (EnvV {
                functions: old(self).deep().functions.insert(name@, function.deep()),
                ..old(self).deep()
            }),
    {
        let ghost v0 = self.functions@;
        let ghost f = function.deep();
        self.functions.push((name, function));
        proof {
            assert(self.functions@.drop_last() =~= v0);
            assert(self.deep().locals =~= old(self).deep().locals);
            assert(self.deep().output =~= old(self).deep().output);
            assert(self.deep() == (EnvV {
                functions: old(self).deep().functions.insert(name@, f),
                ..old(self).deep()
            }));
        }
    }

    /// The binding of `name`: local scopes innermost first, then the
    /// globals.
    pub fn get_variable(&self, name: &str) -> (r: Option<&EvaluatedValue>)
        ensures
            match r {
                Some(v) => lookup_var(self.deep(), name@) == Some(v.deep()),
                None => lookup_var(self.deep(), name@) is None,
            },
    {
        let mut i = self.locals.len();
        proof {
            assert(self.deep().locals.subrange(0, self.locals@.len() as int) =~= self.deep().locals);
        }
        while i > 0
            invariant
                i <= self.locals@.len(),
                lookup_scopes(self.deep().locals, name@) == lookup_scopes(
                    self.deep().locals.subrange(0, i as int),
                    name@,
                ),
            decreases i,
        {
            proof {
                let pre = self.deep().locals.subrange(0, i as int);
                assert(pre.drop_last() =~= self.deep().locals.subrange(0, i - 1));
                assert(pre.last() == vals_view(self.locals@[i - 1]@));
            }
            match assoc_get_val(&self.locals[i - 1], name) {
                Some(v) => {
                    return Some(v);
                },
                None => (),
            }
            i = i - 1;
        }
        proof {
            assert(self.deep().locals.subrange(0, 0) =~= Seq::<Map<Seq<char>, Val>>::empty());
        }
        assoc_get_val(&self.variables, name)
    }

    /// Binds `name` to `value` in the innermost local scope; without
    /// one, leaves the environment unchanged.
    pub fn set_local(&mut self, name: String, value: EvaluatedValue)
        ensures
            final(self).deep() == env_set_local(old(self).deep(), name@, value.deep()),
    {
        let ghost val = value.deep();
        if self.locals.len() == 0 {
            return;
        }
        let mut scope = match self.locals.pop() {
            Some(s) => s,
            None => Vec::new(),
        };
        let ghost s0 = scope@;
        scope.push((name, value));
        proof {
            assert(scope@.drop_last() =~= s0);
        }
        self.locals.push(scope);
        proof {
            assert(self.deep().variables =~= old(self).deep().variables);
            assert(self.deep().output =~= old(self).deep().output);
            assert(self.deep().locals =~= old(self).deep().locals.update(
                old(self).deep().locals.len() - 1,
                old(self).deep().locals.last().insert(name@, val),
            ));
            assert(self.deep() == env_set_local(old(self).deep(), name@, val));
        }
    }

    /// Pushes a fresh local scope.
    pub fn push_defs(&mut self)
        ensures
            final(self).deep() == (EnvV {
                locals: old(self).deep().locals.push(Map::empty()),
                ..old(self).deep()
            }),
    {
        let fresh: Vec<(String, EvaluatedValue)> = Vec::new();
        self.locals.push(fresh);
        proof {
            assert(self.deep().variables =~= old(self).deep().variables);
            assert(self.deep().output =~= old(self).deep().output);
            assert(self.deep().locals =~= old(self).deep().locals.push(Map::empty()));
            assert(self.deep() == (EnvV {
                locals: old(self).deep().locals.push(Map::empty()),
                ..old(self).deep()
            }));
        }
    }

    /// Pops the innermost local scope, if any.
    pub fn pop_defs(&mut self)
        ensures
            final(self).deep() == (EnvV { locals: spec_pop(old(self).deep().locals), ..old(
                self,
            ).deep() }),
    {
        if self.locals.len() > 0 {
            self.locals.pop();
        }
        proof {
            assert(self.deep().variables =~= old(self).deep().variables);
            assert(self.deep().output =~= old(self).deep().output);
            assert(self.deep().locals =~= spec_pop(old(self).deep().locals));
            assert(self.deep() == (EnvV { locals: spec_pop(old(self).deep().locals), ..old(
                self,
            ).deep() }));
        }
    }

    /// Appends a line to the output log.
    pub fn push_output(&mut self, line: String)
        ensures
            final(self).deep() == (EnvV {
                output: old(self).deep().output.push(line@),
                ..old(self).deep()
            }),
    {
        self.output.push(line);
        proof {
            assert(self.deep().variables =~= old(self).deep().variables);
            assert(self.deep().locals =~= old(self).deep().locals);
            assert(self.deep().output =~= old(self).deep().output.push(line@));
            assert(self.deep() == (EnvV {
                output: old(self).deep().output.push(line@),
                ..old(self).deep()
            }));
        }
    }
}

/// An environment with `name` bound in its innermost scope; without one,
/// it is unchanged.
pub open spec fn env_set_local(env: EnvV, name: Seq<char>, v: Val) -> EnvV {
    if env.locals.len() == 0 {
        env
    } else {
        EnvV {
            locals: env.locals.update(
                env.locals.len() - 1,
                env.locals.last().insert(name, v),
            ),
            ..env
        }
    }
}

/// A scope stack with its innermost scope removed.
pub open spec fn spec_pop(locals: Seq<Map<Seq<char>, Val>>) -> Seq<Map<Seq<char>, Val>> {
    if locals.len() == 0 {
        locals
    } else {
        locals.drop_last()
    }
}

/// The debug text of a point.
pub open spec fn point_debug(p: (int, int)) -> Seq<char> {
    "("@ + crate::render::num_string(p.0) + ", "@ + crate::render::num_string(p.1) + ")"@
}

/// The debug text of a point sequence, comma-separated.
pub open spec fn points_debug(ps: Seq<(int, int)>) -> Seq<char>
    decreases ps.len(),
{
    if ps.len() == 0 {
        Seq::empty()
    } else if ps.len() == 1 {
        point_debug(ps[0])
    } else {
        points_debug(ps.drop_last()) + ", "@ + point_debug(ps.last())
    }
}

/// The debug text of an index sequence, comma-separated.
pub open spec fn ints_debug(s: Seq<int>) -> Seq<char>
    decreases s.len(),
{
    if s.len() == 0 {
        Seq::empty()
    } else if s.len() == 1 {
        crate::render::int_string(s[0])
    } else {
        ints_debug(s.drop_last()) + ", "@ + crate::render::int_string(s.last())
    }
}

/// The debug text of a polygon's fields: points, index order, origin.
pub open spec fn poly_debug(p: PolyV) -> Seq<char> {
    "["@ + points_debug(p.points) + "], "@ + (match p.order {
        Some(o) => "Some(["@ + ints_debug(o) + "])"@,
        None => "None"@,
    }) + ", ("@ + crate::render::num_string(p.pos.0) + ", "@ + crate::render::num_string(p.pos.1)
        + ", "@ + crate::render::num_string(p.pos.2) + ")"@
}

/// The debug text of a native value.
pub open spec fn native_debug(nv: NativeV) -> Seq<char> {
    match nv {
        NativeV::Polygon(p) => "Polygon("@ + poly_debug(p) + ")"@,
        NativeV::Extrude(p, h) => "Extrude("@ + poly_debug(p) + ", "@ + crate::render::num_string(
            h,
        ) + ")"@,
    }
}

/// The debug text of a value.
pub open spec fn val_debug(v: Val) -> Seq<char>
    decreases v,
{
    match v {
        Val::Nil => "None"@,
        Val::True => "True"@,
        Val::Number(n) => "Number("@ + crate::render::num_string(n) + ")"@,
        Val::Native(nv) => "Native("@ + native_debug(nv) + ")"@,
        Val::Vector(items) => "Vector(["@ + vals_debug(items) + "])"@,
    }
}

/// The debug texts of a value sequence, comma-separated.
pub open spec fn vals_debug(items: Seq<Val>) -> Seq<char>
    decreases items,
{
    if items.len() == 0 {
        Seq::empty()
    } else if items.len() == 1 {
        val_debug(items[0])
    } else {
        vals_debug(items.drop_last()) + ", "@ + val_debug(items.last())
    }
}

/// The debug texts of a value sequence, space-separated: one `print`
/// line.
pub open spec fn print_line(items: Seq<Val>) -> Seq<char>
    decreases items,
{
    if items.len() == 0 {
        Seq::empty()
    } else if items.len() == 1 {
        val_debug(items[0])
    } else {
        print_line(items.drop_last()) + " "@ + val_debug(items.last())
    }
}

/// Writes `s` onto the end of `out`.
fn append_str(out: &mut String, s: &str)
    ensures
        final(out)@ == old(out)@ + s@,
{
    out.append(s);
}

/// Writes the debug text of a point onto `out`.
fn append_point(out: &mut String, x: &Num, y: &Num)
    ensures
        final(out)@ == old(out)@ + point_debug((x.value(), y.value())),
{
    append_str(out, "(");
    let sx = crate::render::num_to_string(x);
    append_str(out, sx.as_str());
    append_str(out, ", ");
    let sy = crate::render::num_to_string(y);
    append_str(out, sy.as_str());
    append_str(out, ")");
    proof {
        assert(out@ =~= old(out)@ + point_debug((x.value(), y.value())));
    }
}

/// Writes the debug text of a polygon's fields onto `out`.
fn append_poly(out: &mut String, p: &Polygon)
    ensures
        final(out)@ == old(out)@ + poly_debug(p.deep()),
{
    append_str(out, "[");
    let n = p.0.len();
    let ghost base = out@;
    let mut i: usize = 0;
    while i < n
        invariant
            i <= n == p.0@.len(),
            out@ == base + points_debug(p.deep().points.subrange(0, i as int)),
        decreases n - i,
    {
        if i > 0 {
            append_str(out, ", ");
        }
        append_point(out, &p.0[i].0, &p.0[i].1);
        proof {
            let pts = p.deep().points;
            let pre = pts.subrange(0, i + 1);
            assert(pre.drop_last() =~= pts.subrange(0, i as int));
            assert(pre.last() == pts[i as int]);
            assert(pts[i as int] == (p.0@[i as int].0.value(), p.0@[i as int].1.value()));
            if i == 0 {
                assert(out@ =~= base + points_debug(pre));
            } else {
                assert(out@ =~= base + points_debug(pre));
            }
        }
        i = i + 1;
    }
    proof {
        assert(p.deep().points.subrange(0, n as int) =~= p.deep().points);
        assert(points_debug(p.deep().points.subrange(0, 0)) =~= Seq::<char>::empty());
    }
    append_str(out, "], ");
    match &p.1 {
        Option::Some(o) => {
            append_str(out, "Some([");
            let m = o.len();
            let ghost base2 = out@;
            let ghost ord = p.deep().order->0;
            let mut j: usize = 0;
            while j < m
                invariant
                    j <= m == o@.len(),
                    p.1 == Some(*o),
                    ord == p.deep().order->0,
                    ord.len() == m,
                    forall|k: int| 0 <= k < m ==> ord[k] == o@[k] as int,
                    out@ == base2 + ints_debug(ord.subrange(0, j as int)),
                decreases m - j,
            {
                if j > 0 {
                    append_str(out, ", ");
                }
                let si = crate::render::int_to_string(o[j] as i128);
                append_str(out, si.as_str());
                proof {
                    let pre = ord.subrange(0, j + 1);
                    assert(pre.drop_last() =~= ord.subrange(0, j as int));
                    assert(pre.last() == ord[j as int]);
                    assert(out@ =~= base2 + ints_debug(pre));
                }
                j = j + 1;
            }
            proof {
                assert(ord.subrange(0, m as int) =~= ord);
                assert(ints_debug(ord.subrange(0, 0)) =~= Seq::<char>::empty());
            }
            append_str(out, "])");
        },
        Option::None => {
            append_str(out, "None");
        },
    }
    append_str(out, ", (");
    let s0 = crate::render::num_to_string(&p.2.0);
    append_str(out, s0.as_str());
    append_str(out, ", ");
    let s1 = crate::render::num_to_string(&p.2.1);
    append_str(out, s1.as_str());
    append_str(out, ", ");
    let s2 = crate::render::num_to_string(&p.2.2);
    append_str(out, s2.as_str());
    append_str(out, ")");
    proof {
        assert(out@ =~= old(out)@ + poly_debug(p.deep()));
    }
}

/// Writes the debug text of a native value onto `out`.
fn append_native(out: &mut String, nv: &NativeValue)
    ensures
        final(out)@ == old(out)@ + native_debug(nv.deep()),
{
    match nv {
        NativeValue::Polygon(p) => {
            append_str(out, "Polygon(");
            append_poly(out, p);
            append_str(out, ")");
            proof {
                assert(out@ =~= old(out)@ + native_debug(nv.deep()));
            }
        },
        NativeValue::Extrude(p, h) => {
            append_str(out, "Extrude(");
            append_poly(out, p);
            append_str(out, ", ");
            let sh = crate::render::num_to_string(h);
            append_str(out, sh.as_str());
            append_str(out, ")");
            proof {
                assert(out@ =~= old(out)@ + native_debug(nv.deep()));
            }
        },
    }
}

/// Writes the debug text of a value onto `out`.
fn append_val(out: &mut String, v: &EvaluatedValue)
    ensures
        final(out)@ == old(out)@ + val_debug(v.deep()),
    decreases v,
{
    match v {
        EvaluatedValue::Nil => {
            append_str(out, "None");
        },
        EvaluatedValue::True => {
            append_str(out, "True");
        },
        EvaluatedValue::Number(n) => {
            append_str(out, "Number(");
            let s = crate::render::num_to_string(n);
            append_str(out, s.as_str());
            append_str(out, ")");
            proof {
                assert(out@ =~= old(out)@ + val_debug(v.deep()));
            }
        },
        EvaluatedValue::Native(nv) => {
            append_str(out, "Native(");
            append_native(out, nv);
            append_str(out, ")");
            proof {
                assert(out@ =~= old(out)@ + val_debug(v.deep()));
            }
        },
        EvaluatedValue::Vector(items) => {
            append_str(out, "Vector([");
            let n = items.len();
            let ghost base = out@;
            let ghost dv = deep_vals(items@);
            proof {
                lemma_deep_vals(items@);
            }
            let mut i: usize = 0;
            while i < n
                invariant
                    i <= n == items@.len(),
                    *v == EvaluatedValue::Vector(*items),
                    dv == deep_vals(items@),
                    dv.len() == n,
                    forall|k: int| 0 <= k < n ==> dv[k] == #[trigger] items@[k].deep(),
                    out@ == base + vals_debug(dv.subrange(0, i as int)),
                decreases n - i,
            {
                if i > 0 {
                    append_str(out, ", ");
                }
                proof {
                    lemma_val_child_decreases(v, items, i as int);
                }
                append_val(out, &items[i]);
                proof {
                    let pre = dv.subrange(0, i + 1);
                    assert(pre.drop_last() =~= dv.subrange(0, i as int));
                    assert(pre.last() == dv[i as int]);
                    assert(out@ =~= base + vals_debug(pre));
                }
                i = i + 1;
            }
            proof {
                assert(dv.subrange(0, n as int) =~= dv);
                assert(vals_debug(dv.subrange(0, 0)) =~= Seq::<char>::empty());
            }
            append_str(out, "])");
            proof {
                assert(out@ =~= old(out)@ + val_debug(v.deep()));
            }
        },
    }
}

/// The debug text of a value.
pub fn value_debug_string(v: &EvaluatedValue) -> (r: String)
    ensures
        r@ == val_debug(v.deep()),
{
    let mut out = String::new();
    append_val(&mut out, v);
    proof {
        assert(Seq::<char>::empty() + val_debug(v.deep()) =~= val_debug(v.deep()));
    }
    out
}

} // verus!
