//! The expression tree: numbers, identifiers and s-expressions, and the
//! recursive-descent parser that builds it from a token sequence.

use vstd::prelude::*;

use crate::lex::InputToken;
use crate::lex::TokenV;
use crate::lex::deep_tokens;
use crate::lex::lemma_deep_tokens;
use crate::num::Num;

verus! {

/// A parse failure: unexpected end of input (with an internal site
/// code), or a token that cannot begin or continue a value, with its
/// position.
#[derive(Debug)]
pub enum ParseError {
    EOF(usize),
    UnexpectedToken(InputToken, usize),
}

/// The mathematical shape of a parse failure.
pub enum ParseErrV {
    EOF(int),
    UnexpectedToken(TokenV, int),
}

impl ParseError {
    /// The mathematical shape of this failure.
    pub open spec fn deep(self) -> ParseErrV {
        match self {
            ParseError::EOF(n) => ParseErrV::EOF(n as int),
            ParseError::UnexpectedToken(t, p) => ParseErrV::UnexpectedToken(t.deep(), p as int),
        }
    }
}

/// A node of the expression tree.
#[derive(Debug)]
pub enum Value {
    Number(Num),
    Identifier(String),
    SExpression(SExpression),
}

/// An s-expression: an ordered sequence of child values.
#[derive(Debug)]
pub struct SExpression {
    pub body: Vec<Value>,
}

/// The mathematical shape of a `Value`: numbers as integers (in
/// millionths), identifiers as character sequences, groups as sequences.
pub enum ValueV {
    Number(int),
    Identifier(Seq<char>),
    SExpression(Seq<ValueV>),
}

/// The shapes of a sequence of values.
pub open spec fn deep_body(s: Seq<Value>) -> Seq<ValueV>
    decreases s,
{
    if s.len() == 0 {
        Seq::empty()
    } else {
        deep_body(s.drop_last()).push(s.last().deep())
    }
}

impl Value {
    /// The mathematical shape of this value.
    pub open spec fn deep(self) -> ValueV
        decreases self,
    {
        match self {
            Value::Number(n) => ValueV::Number(n.value()),
            Value::Identifier(s) => ValueV::Identifier(s@),
            Value::SExpression(se) => ValueV::SExpression(deep_body(se.body@)),
        }
    }
}

impl SExpression {
    /// The shapes of this group's children.
    pub open spec fn deep(self) -> Seq<ValueV> {
        deep_body(self.body@)
    }
}

/// `deep_body` is the element-wise shape of the sequence.
pub proof fn lemma_deep_body(s: Seq<Value>)
    ensures
        deep_body(s).len() == s.len(),
        forall|i: int| 0 <= i < s.len() ==> deep_body(s)[i] == #[trigger] s[i].deep(),
    decreases s,
{
    if s.len() > 0 {
        lemma_deep_body(s.drop_last());
        assert forall|i: int| 0 <= i < s.len() implies deep_body(s)[i] == #[trigger] s[i].deep()
        by {
            if i < s.len() - 1 {
                assert(s.drop_last()[i] == s[i]);
            } else {
                assert(s[i] == s.last());
            }
        }
    }
}

/// A value stands above each child of its group in the termination order.
proof fn lemma_child_decreases(v: &Value, se: &SExpression, i: int)
    requires
        *v == Value::SExpression(*se),
        0 <= i < se.body@.len(),
    ensures
        decreases_to!(*v => se.body@[i]),
{
    assert(decreases_to!(*v => v->SExpression_0));
    assert(v->SExpression_0 == *se);
    assert(decreases_to!(*se => se.body));
    assert(decreases_to!(se.body => se.body@));
    assert(decreases_to!(se.body@ => se.body@[i]));
}

impl SExpression {
    pub fn new(body: Vec<Value>) -> (r: Self)
        ensures
            r.deep() == deep_body(body@),
    {
        Self { body }
    }

    pub fn first(&self) -> (r: Option<&Value>)
        ensures
            match r {
                Some(v) => self.deep().len() > 0 && v.deep() == self.deep()[0],
                None => self.deep().len() == 0,
            },
    {
        proof {
            lemma_deep_body(self.body@);
        }
        if self.body.len() == 0 {
            None
        } else {
            Some(&self.body[0])
        }
    }

    /// Whether the first child equals `comp`; `None` when the group is
    /// empty.
    pub fn is_first(&self, comp: &Value) -> (r: Option<bool>)
        ensures
            match r {
                Some(b) => self.deep().len() > 0 && b == (self.deep()[0] == comp.deep()),
                None => self.deep().len() == 0,
            },
    {
        proof {
            lemma_deep_body(self.body@);
        }
        if self.body.len() == 0 {
            None
        } else {
            Some(value_eq(&self.body[0], comp))
        }
    }

    pub fn body(&self) -> (r: &Vec<Value>)
        ensures
            deep_body(r@) == self.deep(),
    {
        &self.body
    }
}

/// Structural equality of two values, decided on their shapes.
pub fn value_eq(a: &Value, b: &Value) -> (r: bool)
    ensures
        r == (a.deep() == b.deep()),
    decreases a,
{
    match a {
        Value::Number(x) => match b {
            Value::Number(y) => x.raw == y.raw,
            _ => false,
        },
        Value::Identifier(x) => match b {
            Value::Identifier(y) => x.eq(y),
            _ => false,
        },
        Value::SExpression(x) => match b {
            Value::SExpression(y) => {
            proof {
                lemma_deep_body(x.body@);
                lemma_deep_body(y.body@);
            }
            if x.body.len() != y.body.len() {
                return false;
            }
            let n = x.body.len();
            for i in 0..n
                invariant
                    n == x.body.len() == y.body.len(),
                    deep_body(x.body@).len() == n,
                    deep_body(y.body@).len() == n,
                    forall|j: int| 0 <= j < i ==> deep_body(x.body@)[j] == deep_body(y.body@)[j],
                    *a == Value::SExpression(*x),
                    *b == Value::SExpression(*y),
                    a.deep() == ValueV::SExpression(deep_body(x.body@)),
                    b.deep() == ValueV::SExpression(deep_body(y.body@)),
            {
                proof {
                    lemma_deep_body(x.body@);
                    lemma_deep_body(y.body@);
                    lemma_child_decreases(a, x, i as int);
                }
                if !value_eq(&x.body[i], &y.body[i]) {
                    proof {
                        assert(deep_body(x.body@)[i as int] != deep_body(y.body@)[i as int]);
                    }
                    return false;
                }
            }
            proof {
                assert(deep_body(x.body@) =~= deep_body(y.body@));
            }
            true
            },
            _ => false,
        },
    }
}

/// An exact copy of a value.
pub fn value_duplicate(v: &Value) -> (r: Value)
    ensures
        r.deep() == v.deep(),
    decreases v,
{
    match v {
        Value::Number(n) => Value::Number(*n),
        Value::Identifier(s) => Value::Identifier(s.clone()),
        Value::SExpression(se) => {
            proof {
                lemma_deep_body(se.body@);
            }
            let n = se.body.len();
            let mut out: Vec<Value> = Vec::new();
            for i in 0..n
                invariant
                    n == se.body.len(),
                    out@.len() == i,
                    deep_body(se.body@).len() == n,
                    forall|j: int| 0 <= j < i ==> #[trigger] out@[j].deep() == deep_body(
                        se.body@,
                    )[j],
                    *v == Value::SExpression(*se),
                    v.deep() == ValueV::SExpression(deep_body(se.body@)),
            {
                proof {
                    lemma_deep_body(se.body@);
                    lemma_child_decreases(v, se, i as int);
                }
                let c = value_duplicate(&se.body[i]);
                out.push(c);
            }
            proof {
                lemma_deep_body(out@);
                lemma_deep_body(se.body@);
                assert forall|j: int| 0 <= j < n implies deep_body(out@)[j] == deep_body(
                    se.body@,
                )[j] by {
                    assert(out@[j].deep() == deep_body(se.body@)[j]);
                }
                assert(deep_body(out@) =~= deep_body(se.body@));
            }
            Value::SExpression(SExpression { body: out })
        },
    }
}

/// The token sequence with comments removed.
pub open spec fn filter_tokens(s: Seq<TokenV>) -> Seq<TokenV>
    decreases s,
{
    if s.len() == 0 {
        Seq::empty()
    } else {
        filter_tokens(s.drop_last()) + (if s.last() is Comment {
            Seq::<TokenV>::empty()
        } else {
            seq![s.last()]
        })
    }
}

/// One value, starting at token `i`: a number, an identifier, or a
/// parenthesised group. Yields the value and the position after it.
pub open spec fn spec_parse_value(toks: Seq<TokenV>, i: int) -> Result<
    (ValueV, int),
    ParseErrV,
>
    decreases toks.len() - i, 1int,
{
    if i < 0 || i >= toks.len() {
        Err(ParseErrV::EOF(0))
    } else {
        match toks[i] {
            TokenV::Number(v) => Ok((ValueV::Number(v), i + 1)),
            TokenV::Identifier(s) => Ok((ValueV::Identifier(s), i + 1)),
            TokenV::StartParen => match spec_parse_sexp(toks, i) {
                Ok((b, j)) => Ok((ValueV::SExpression(b), j)),
                Err(e) => Err(e),
            },
            TokenV::EndParen => Err(ParseErrV::UnexpectedToken(TokenV::EndParen, i)),
            TokenV::Comment(c) => Err(ParseErrV::UnexpectedToken(TokenV::Comment(c), i)),
        }
    }
}

/// A group, starting at its open marker: empty when a close marker
/// follows at once, else the members up to the close marker.
pub open spec fn spec_parse_sexp(toks: Seq<TokenV>, i: int) -> Result<
    (Seq<ValueV>, int),
    ParseErrV,
>
    decreases toks.len() - i, 0int,
{
    if i < 0 || i >= toks.len() {
        Err(ParseErrV::EOF(2))
    } else if !(toks[i] is StartParen) {
        Err(ParseErrV::UnexpectedToken(toks[i], i))
    } else if i + 1 < toks.len() && toks[i + 1] is EndParen {
        Ok((Seq::empty(), i + 2))
    } else {
        spec_parse_body(toks, i + 1)
    }
}

/// The members of a group from position `i` to its close marker.
pub open spec fn spec_parse_body(toks: Seq<TokenV>, i: int) -> Result<
    (Seq<ValueV>, int),
    ParseErrV,
>
    decreases toks.len() - i, 2int,
{
    match spec_parse_value(toks, i) {
        Err(e) => Err(e),
        Ok((v, j)) => {
            if j >= toks.len() {
                Err(ParseErrV::EOF(1))
            } else if toks[j] is EndParen {
                Ok((seq![v], j + 1))
            } else if j <= i {
                Err(ParseErrV::EOF(1))
            } else {
                match spec_parse_body(toks, j) {
                    Ok((rest, k)) => Ok((seq![v] + rest, k)),
                    Err(e) => Err(e),
                }
            }
        },
    }
}

/// The top-level values of the whole token sequence, from position `i`.
pub open spec fn spec_parse_top(toks: Seq<TokenV>, i: int) -> Result<Seq<ValueV>, ParseErrV>
    decreases toks.len() - i,
{
    if i < 0 || i >= toks.len() {
        Ok(Seq::empty())
    } else {
        match spec_parse_value(toks, i) {
            Err(e) => Err(e),
            Ok((v, j)) => {
                if j <= i || j > toks.len() {
                    Err(ParseErrV::EOF(0))
                } else {
                    match spec_parse_top(toks, j) {
                        Ok(rest) => Ok(seq![v] + rest),
                        Err(e) => Err(e),
                    }
                }
            },
        }
    }
}

/// The parse of a token sequence: comments removed, then every
/// top-level value.
pub open spec fn spec_parse(toks: Seq<TokenV>) -> Result<Seq<ValueV>, ParseErrV> {
    spec_parse_top(filter_tokens(toks), 0)
}

/// One value, starting at token `index`.
fn parse_value(input: &Vec<InputToken>, index: usize) -> (r: Result<(Value, usize), ParseError>)
    ensures
        match r {
            Ok((v, j)) => spec_parse_value(deep_tokens(input@), index as int) == Ok::<
                (ValueV, int),
                ParseErrV,
            >((v.deep(), j as int)) && index < j <= input@.len(),
            Err(e) => spec_parse_value(deep_tokens(input@), index as int) == Err::<
                (ValueV, int),
                ParseErrV,
            >(e.deep()),
        },
    decreases input@.len() - index, 1int,
{
    proof {
        lemma_deep_tokens(input@);
    }
    if index >= input.len() {
        return Err(ParseError::EOF(0));
    }
    proof {
        assert(deep_tokens(input@)[index as int] == input@[index as int].deep());
    }
    match &input[index] {
        InputToken::Number(v) => Ok((Value::Number(*v), index + 1)),
        InputToken::Identifier(v) => Ok((Value::Identifier(v.clone()), index + 1)),
        InputToken::StartParen => match parse_sexp(input, index) {
            Ok((expr, new_index)) => Ok((Value::SExpression(expr), new_index)),
            Err(e) => Err(e),
        },
        InputToken::Comment(c) => Err(
            ParseError::UnexpectedToken(InputToken::Comment(c.clone()), index),
        ),
        InputToken::EndParen => Err(ParseError::UnexpectedToken(InputToken::EndParen, index)),
    }
}

/// A group, starting at its open marker.
fn parse_sexp(input: &Vec<InputToken>, index: usize) -> (r: Result<
    (SExpression, usize),
    ParseError,
>)
    ensures
        match r {
            Ok((se, j)) => spec_parse_sexp(deep_tokens(input@), index as int) == Ok::<
                (Seq<ValueV>, int),
                ParseErrV,
            >((se.deep(), j as int)) && index < j <= input@.len(),
            Err(e) => spec_parse_sexp(deep_tokens(input@), index as int) == Err::<
                (Seq<ValueV>, int),
                ParseErrV,
            >(e.deep()),
        },
    decreases input@.len() - index, 0int,
{
    let ghost toks = deep_tokens(input@);
    proof {
        lemma_deep_tokens(input@);
    }
    if index >= input.len() {
        return Err(ParseError::EOF(2));
    }
    proof {
        assert(toks[index as int] == input@[index as int].deep());
    }
    match &input[index] {
        InputToken::StartParen => (),
        _ => {
            return Err(
                ParseError::UnexpectedToken(input_token_duplicate(&input[index]), index),
            );
        },
    }
    if index + 1 < input.len() {
        proof {
            assert(toks[index + 1] == input@[index + 1].deep());
        }
        match &input[index + 1] {
            InputToken::EndParen => {
                proof {
                    assert(deep_body(Seq::<Value>::empty()) =~= Seq::<ValueV>::empty());
                }
                let empty_body: Vec<Value> = Vec::new();
                return Ok((SExpression::new(empty_body), index + 2));
            },
            _ => (),
        }
    }
    let mut body: Vec<Value> = Vec::new();
    let mut cur = index + 1;
    proof {
        assert(deep_body(body@) =~= Seq::<ValueV>::empty());
        match spec_parse_body(toks, index + 1) {
            Ok((rest, k)) => {
                assert(deep_body(body@) + rest =~= rest);
            },
            Err(_) => {},
        }
    }
    loop
        invariant
            index < cur <= input@.len(),
            toks == deep_tokens(input@),
            toks.len() == input@.len(),
            spec_parse_sexp(toks, index as int) == (match spec_parse_body(toks, cur as int) {
                Ok((rest, k)) => Ok::<(Seq<ValueV>, int), ParseErrV>(
                    (deep_body(body@) + rest, k),
                ),
                Err(e) => Err::<(Seq<ValueV>, int), ParseErrV>(e),
            }),
        decreases input@.len() - cur,
    {
        let ghost body0 = body@;
        match parse_value(input, cur) {
            Err(e) => {
                return Err(e);
            },
            Ok((value, new_index)) => {
                body.push(value);
                cur = new_index;
                proof {
                    assert(deep_body(body@).drop_last() =~= deep_body(body0)) by {
                        assert(body@.drop_last() =~= body0);
                    }
                    assert(deep_body(body@) =~= deep_body(body0).push(body@.last().deep()));
                }
                if cur >= input.len() {
                    return Err(ParseError::EOF(1));
                }
                let is_end = match &input[cur] {
                    InputToken::EndParen => true,
                    _ => false,
                };
                proof {
                    lemma_deep_tokens(input@);
                    assert(toks[cur as int] == input@[cur as int].deep());
                    assert(is_end == (toks[cur as int] is EndParen));
                }
                if is_end {
                    cur = cur + 1;
                    proof {
                        assert(deep_body(body0) + seq![body@.last().deep()] =~= deep_body(
                            body@,
                        ));
                    }
                    let se = SExpression::new(body);
                    return Ok((se, cur));
                }
                proof {
                    match spec_parse_body(toks, cur as int) {
                        Ok((rest, k)) => {
                            assert(deep_body(body0) + (seq![body@.last().deep()] + rest)
                                =~= deep_body(body@) + rest);
                        },
                        Err(_) => {},
                    }
                }
            },
        }
    }
}

/// An exact copy of a token.
fn input_token_duplicate(t: &InputToken) -> (r: InputToken)
    ensures
        r.deep() == t.deep(),
{
    match t {
        InputToken::Comment(s) => InputToken::Comment(s.clone()),
        InputToken::StartParen => InputToken::StartParen,
        InputToken::EndParen => InputToken::EndParen,
        InputToken::Number(n) => InputToken::Number(*n),
        InputToken::Identifier(s) => InputToken::Identifier(s.clone()),
    }
}

/// Parses a token sequence: comments are removed, then the top-level
/// values are parsed until the tokens are exhausted.
pub fn parse(input: Vec<InputToken>) -> (r: Result<Vec<Value>, ParseError>)
    ensures
        match r {
            Ok(values) => spec_parse(deep_tokens(input@)) == Ok::<Seq<ValueV>, ParseErrV>(
                deep_body(values@),
            ),
            Err(e) => spec_parse(deep_tokens(input@)) == Err::<Seq<ValueV>, ParseErrV>(e.deep()),
        },
{
    // Remove the comments.
    let mut meat: Vec<InputToken> = Vec::new();
    let n = input.len();
    let mut i: usize = 0;
    while i < n
        invariant
            i <= n == input@.len(),
            deep_tokens(meat@) == filter_tokens(deep_tokens(input@.subrange(0, i as int))),
        decreases n - i,
    {
        let ghost meat0 = meat@;
        let keep = match &input[i] {
            InputToken::Comment(_) => false,
            _ => true,
        };
        if keep {
            meat.push(input_token_duplicate(&input[i]));
        }
        proof {
            lemma_deep_tokens(input@);
            let pre = deep_tokens(input@.subrange(0, i + 1));
            lemma_deep_tokens(input@.subrange(0, i + 1));
            lemma_deep_tokens(input@.subrange(0, i as int));
            assert(pre.drop_last() =~= deep_tokens(input@.subrange(0, i as int))) by {
                lemma_deep_prefix(input@, i as int);
            }
            assert(pre.last() == input@[i as int].deep()) by {
                assert(input@.subrange(0, i + 1)[i as int] == input@[i as int]);
            }
            if keep {
                assert(deep_tokens(meat@).drop_last() =~= deep_tokens(meat0)) by {
                    lemma_deep_tokens(meat@);
                    lemma_deep_tokens(meat0);
                    assert(meat@.drop_last() =~= meat0);
                    lemma_deep_prefix_eq(meat@, meat0);
                }
                assert(deep_tokens(meat@) =~= filter_tokens(pre));
            } else {
                assert(deep_tokens(meat@) =~= filter_tokens(pre));
            }
        }
        i = i + 1;
    }
    proof {
        assert(input@.subrange(0, n as int) =~= input@);
    }
    let ghost toks = deep_tokens(meat@);
    // Parse top-level values until the tokens run out.
    let mut cur_index: usize = 0;
    let mut out: Vec<Value> = Vec::new();
    proof {
        lemma_deep_tokens(meat@);
        assert(deep_body(out@) =~= Seq::<ValueV>::empty());
        match spec_parse_top(toks, 0) {
            Ok(rest) => {
                assert(deep_body(out@) + rest =~= rest);
            },
            Err(_) => {},
        }
    }
    loop
        invariant
            cur_index <= meat@.len(),
            toks == deep_tokens(meat@),
            toks.len() == meat@.len(),
            toks == filter_tokens(deep_tokens(input@)),
            spec_parse(deep_tokens(input@)) == (match spec_parse_top(toks, cur_index as int) {
                Ok(rest) => Ok::<Seq<ValueV>, ParseErrV>(deep_body(out@) + rest),
                Err(e) => Err::<Seq<ValueV>, ParseErrV>(e),
            }),
        decreases meat@.len() - cur_index,
    {
        proof {
            lemma_deep_tokens(meat@);
        }
        if meat.len() == cur_index {
            proof {
                assert(deep_body(out@) + Seq::<ValueV>::empty() =~= deep_body(out@));
            }
            return Ok(out);
        }
        let ghost out0 = out@;
        match parse_value(&meat, cur_index) {
            Ok((v, j)) => {
                out.push(v);
                cur_index = j;
                proof {
                    assert(deep_body(out@).drop_last() =~= deep_body(out0)) by {
                        assert(out@.drop_last() =~= out0);
                        lemma_deep_body(out@);
                        lemma_deep_body(out0);
                        lemma_deep_body_prefix_eq(out@, out0);
                    }
                    assert(deep_body(out@) =~= deep_body(out0).push(out@.last().deep()));
                    match spec_parse_top(toks, cur_index as int) {
                        Ok(rest) => {
                            assert(deep_body(out0) + (seq![out@.last().deep()] + rest)
                                =~= deep_body(out@) + rest);
                        },
                        Err(_) => {},
                    }
                }
            },
            Err(e) => {
                return Err(e);
            },
        }
    }
}

/// The shapes of a strict prefix match the prefix of the shapes.
proof fn lemma_deep_prefix(s: Seq<InputToken>, i: int)
    requires
        0 <= i < s.len(),
    ensures
        deep_tokens(s.subrange(0, i + 1)).drop_last() =~= deep_tokens(s.subrange(0, i)),
{
    lemma_deep_tokens(s.subrange(0, i + 1));
    lemma_deep_tokens(s.subrange(0, i));
    assert forall|j: int| 0 <= j < i implies deep_tokens(s.subrange(0, i + 1)).drop_last()[j]
        == deep_tokens(s.subrange(0, i))[j] by {
        assert(s.subrange(0, i + 1)[j] == s[j]);
        assert(s.subrange(0, i)[j] == s[j]);
        assert(deep_tokens(s.subrange(0, i + 1))[j] == s.subrange(0, i + 1)[j].deep());
        assert(deep_tokens(s.subrange(0, i))[j] == s.subrange(0, i)[j].deep());
    }
}

/// Equal token sequences have equal shapes.
proof fn lemma_deep_prefix_eq(s: Seq<InputToken>, t: Seq<InputToken>)
    requires
        s.drop_last() =~= t,
        s.len() >= 1,
    ensures
        deep_tokens(s).drop_last() =~= deep_tokens(t),
{
    lemma_deep_tokens(s);
    lemma_deep_tokens(t);
    assert forall|j: int| 0 <= j < t.len() implies deep_tokens(s).drop_last()[j] == deep_tokens(
        t,
    )[j] by {
        assert(s.drop_last()[j] == s[j]);
    }
}

/// Equal value sequences have equal shapes.
proof fn lemma_deep_body_prefix_eq(s: Seq<Value>, t: Seq<Value>)
    requires
        s.drop_last() =~= t,
        s.len() >= 1,
    ensures
        deep_body(s).drop_last() =~= deep_body(t),
{
    lemma_deep_body(s);
    lemma_deep_body(t);
    assert forall|j: int| 0 <= j < t.len() implies deep_body(s).drop_last()[j] == deep_body(
        t,
    )[j] by {
        assert(s.drop_last()[j] == s[j]);
    }
}

} // verus!
