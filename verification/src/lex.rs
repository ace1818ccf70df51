//! The lexer: one left-to-right scan of the source text into a flat
//! token sequence.
//!
//! `;` opens a line comment running to the end of the line; parentheses
//! are standalone markers and token boundaries; whitespace is a token
//! boundary; any other maximal run is a numeric literal if it parses as
//! one, else an identifier.

use vstd::prelude::*;

use crate::num::Num;
use crate::num::is_digit;
use crate::num::spec_num_literal;
use crate::num::parse_num_literal;

verus! {

/// A lexed token.
#[derive(Debug)]
pub enum InputToken {
    Comment(String),
    StartParen,
    EndParen,
    Number(Num),
    Identifier(String),
}

/// The mathematical shape of a token: numbers as integers (in
/// millionths), text as character sequences.
pub enum TokenV {
    Comment(Seq<char>),
    StartParen,
    EndParen,
    Number(int),
    Identifier(Seq<char>),
}

impl InputToken {
    /// The mathematical shape of this token.
    pub open spec fn deep(self) -> TokenV {
        match self {
            InputToken::Comment(s) => TokenV::Comment(s@),
            InputToken::StartParen => TokenV::StartParen,
            InputToken::EndParen => TokenV::EndParen,
            InputToken::Number(n) => TokenV::Number(n.value()),
            InputToken::Identifier(s) => TokenV::Identifier(s@),
        }
    }
}

/// The shapes of a token sequence.
pub open spec fn deep_tokens(s: Seq<InputToken>) -> Seq<TokenV>
    decreases s,
{
    if s.len() == 0 {
        Seq::empty()
    } else {
        deep_tokens(s.drop_last()).push(s.last().deep())
    }
}

/// `deep_tokens` is the element-wise shape of the sequence.
pub proof fn lemma_deep_tokens(s: Seq<InputToken>)
    ensures
        deep_tokens(s).len() == s.len(),
        forall|i: int| 0 <= i < s.len() ==> deep_tokens(s)[i] == #[trigger] s[i].deep(),
    decreases s,
{
    if s.len() > 0 {
        lemma_deep_tokens(s.drop_last());
        assert forall|i: int| 0 <= i < s.len() implies deep_tokens(s)[i] == #[trigger] s[i].deep()
        by {
            if i < s.len() - 1 {
                assert(s.drop_last()[i] == s[i]);
            } else {
                assert(s[i] == s.last());
            }
        }
    }
}

/// Whether `c` is whitespace: the Unicode `White_Space` code points.
pub open spec fn is_space(c: char) -> bool {
    c == ' ' || ('\u{0009}' <= c && c <= '\u{000D}') || c == '\u{0085}' || c == '\u{00A0}' || c
        == '\u{1680}' || ('\u{2000}' <= c && c <= '\u{200A}') || c == '\u{2028}' || c == '\u{2029}'
        || c == '\u{202F}' || c == '\u{205F}' || c == '\u{3000}'
}

/// Whether `c` is whitespace.
pub fn is_space_exec(c: char) -> (r: bool)
    ensures
        r == is_space(c),
{
    c == ' ' || (c >= '\u{0009}' && c <= '\u{000D}') || c == '\u{0085}' || c == '\u{00A0}' || c
        == '\u{1680}' || (c >= '\u{2000}' && c <= '\u{200A}') || c == '\u{2028}' || c == '\u{2029}'
        || c == '\u{202F}' || c == '\u{205F}' || c == '\u{3000}'
}

/// How many leading whitespace characters `s` has.
pub open spec fn trim_lo(s: Seq<char>) -> int
    decreases s.len(),
{
    if s.len() == 0 {
        0
    } else if is_space(s[0]) {
        1 + trim_lo(s.drop_first())
    } else {
        0
    }
}

/// Where the trailing whitespace of `s` begins.
pub open spec fn trim_hi(s: Seq<char>) -> int
    decreases s.len(),
{
    if s.len() == 0 {
        0
    } else if is_space(s.last()) {
        trim_hi(s.drop_last())
    } else {
        s.len() as int
    }
}

/// `s` with leading and trailing whitespace removed.
pub open spec fn trimmed(s: Seq<char>) -> Seq<char> {
    if trim_lo(s) >= trim_hi(s) {
        Seq::empty()
    } else {
        s.subrange(trim_lo(s), trim_hi(s))
    }
}

/// `trim_lo` counts exactly the leading whitespace.
pub proof fn lemma_trim_lo(s: Seq<char>)
    ensures
        0 <= trim_lo(s) <= s.len(),
        trim_lo(s) < s.len() ==> !is_space(s[trim_lo(s)]),
        forall|i: int| 0 <= i < trim_lo(s) ==> is_space(#[trigger] s[i]),
    decreases s.len(),
{
    if s.len() > 0 && is_space(s[0]) {
        lemma_trim_lo(s.drop_first());
        assert(forall|i: int|
            0 <= i < s.len() - 1 ==> s.drop_first()[i] == #[trigger] s[i + 1]);
        assert forall|i: int| 0 <= i < trim_lo(s) implies is_space(#[trigger] s[i]) by {
            if i > 0 {
                assert(is_space(s.drop_first()[i - 1]));
            }
        }
    }
}

/// `trim_hi` marks exactly where the trailing whitespace begins.
pub proof fn lemma_trim_hi(s: Seq<char>)
    ensures
        0 <= trim_hi(s) <= s.len(),
        trim_hi(s) > 0 ==> !is_space(s[trim_hi(s) - 1]),
        forall|i: int| trim_hi(s) <= i < s.len() ==> is_space(#[trigger] s[i]),
    decreases s.len(),
{
    if s.len() > 0 && is_space(s.last()) {
        lemma_trim_hi(s.drop_last());
        assert(forall|i: int|
            0 <= i < s.len() - 1 ==> s.drop_last()[i] == #[trigger] s[i]);
    }
}

/// The token a flushed source run produces: nothing for whitespace,
/// else a number if the trimmed run parses as one, else an identifier.
pub open spec fn spec_classify(cur: Seq<char>) -> Option<TokenV> {
    let t = trimmed(cur);
    if t.len() == 0 {
        None
    } else {
        match spec_num_literal(t) {
            Some(v) => Some(TokenV::Number(v)),
            None => Some(TokenV::Identifier(t)),
        }
    }
}

/// The token a flushed comment run produces: nothing when blank.
pub open spec fn spec_classify_comment(cur: Seq<char>) -> Option<TokenV> {
    let t = trimmed(cur);
    if t.len() == 0 {
        None
    } else {
        Some(TokenV::Comment(t))
    }
}

/// A singleton or empty token sequence.
pub open spec fn opt_tok(t: Option<TokenV>) -> Seq<TokenV> {
    match t {
        Some(tok) => seq![tok],
        None => Seq::empty(),
    }
}

/// One scan step: the tokens it emits and the new pending run and
/// comment state.
pub open spec fn lex_step(ch: char, cur: Seq<char>, inc: bool) -> (Seq<TokenV>, Seq<char>, bool) {
    let (e1, cur1, inc1) = if ch == ';' && !inc {
        (opt_tok(spec_classify(cur)), Seq::<char>::empty(), true)
    } else if ch == '\n' && inc {
        (opt_tok(spec_classify_comment(cur)), Seq::<char>::empty(), false)
    } else {
        (Seq::<TokenV>::empty(), cur, inc)
    };
    let (e2, cur2) = if (is_space(ch) || ch == '(' || ch == ')') && !inc1 {
        (e1 + opt_tok(spec_classify(cur1)), Seq::<char>::empty())
    } else {
        (e1, cur1)
    };
    if ch == '(' && !inc1 {
        (e2.push(TokenV::StartParen), cur2, inc1)
    } else if ch == ')' && !inc1 {
        (e2.push(TokenV::EndParen), cur2, inc1)
    } else {
        (e2, cur2.push(ch), inc1)
    }
}

/// The tokens of `s` from position `i` on, with pending run `cur` and
/// comment state `inc`: the remaining steps, then the final flush.
pub open spec fn spec_lex_from(s: Seq<char>, i: int, cur: Seq<char>, inc: bool) -> Seq<TokenV>
    decreases s.len() - i,
{
    if i < 0 || i >= s.len() {
        if inc {
            opt_tok(spec_classify_comment(cur))
        } else {
            opt_tok(spec_classify(cur))
        }
    } else {
        let (e, cur2, inc2) = lex_step(s[i], cur, inc);
        e + spec_lex_from(s, i + 1, cur2, inc2)
    }
}

/// The tokens of the source text `s`.
pub open spec fn spec_lex(s: Seq<char>) -> Seq<TokenV> {
    spec_lex_from(s, 0, Seq::empty(), false)
}

/// The characters `s[lo..hi]` as a `String`.
fn chars_to_string(s: &Vec<char>, lo: usize, hi: usize) -> (r: String)
    requires
        lo <= hi <= s@.len(),
    ensures
        r@ == s@.subrange(lo as int, hi as int),
{
    let mut r = String::new();
    let mut i = lo;
    while i < hi
        invariant
            lo <= i <= hi <= s@.len(),
            r@ == s@.subrange(lo as int, i as int),
        decreases hi - i,
    {
        crate::render::push_char(&mut r, s[i]);
        proof {
            assert(s@.subrange(lo as int, i + 1) =~= s@.subrange(lo as int, i as int).push(
                s@[i as int],
            ));
        }
        i = i + 1;
    }
    proof {
        assert(s@.subrange(lo as int, lo as int) =~= Seq::<char>::empty());
    }
    r
}

/// The bounds of `cur` with surrounding whitespace trimmed.
fn trim_bounds(cur: &Vec<char>) -> (r: (usize, usize))
    ensures
        r.0 <= r.1 <= cur@.len(),
        r.0 < r.1 ==> trimmed(cur@) == cur@.subrange(r.0 as int, r.1 as int),
        r.0 == r.1 ==> trimmed(cur@) == Seq::<char>::empty(),
{
    proof {
        lemma_trim_lo(cur@);
        lemma_trim_hi(cur@);
    }
    let n = cur.len();
    let mut lo: usize = 0;
    while lo < n && is_space_exec(cur[lo])
        invariant
            0 <= lo <= n == cur@.len(),
            forall|i: int| 0 <= i < lo ==> is_space(#[trigger] cur@[i]),
        decreases n - lo,
    {
        lo = lo + 1;
    }
    let mut hi: usize = n;
    while hi > lo && is_space_exec(cur[hi - 1])
        invariant
            lo <= hi <= n == cur@.len(),
            forall|i: int| 0 <= i < lo ==> is_space(#[trigger] cur@[i]),
            forall|i: int| hi <= i < n ==> is_space(#[trigger] cur@[i]),
        decreases hi,
    {
        hi = hi - 1;
    }
    proof {
        // Either everything is whitespace, or [lo, hi) is exactly the
        // trimmed span.
        if lo == hi {
            assert(forall|i: int| 0 <= i < cur@.len() ==> is_space(#[trigger] cur@[i]));
            assert(trim_lo(cur@) >= trim_hi(cur@)) by {
                if trim_hi(cur@) > 0 {
                    assert(!is_space(cur@[trim_hi(cur@) - 1]));
                }
            }
        } else {
            assert(!is_space(cur@[lo as int]));
            assert(!is_space(cur@[hi - 1]));
            assert(trim_lo(cur@) == lo as int) by {
                if trim_lo(cur@) < lo as int {
                    assert(is_space(cur@[trim_lo(cur@)]));
                }
            }
            assert(trim_hi(cur@) == hi as int) by {
                if trim_hi(cur@) > hi as int {
                    assert(is_space(cur@[trim_hi(cur@) - 1]));
                } else if trim_hi(cur@) < hi as int {
                    assert(is_space(cur@[hi - 1]));
                }
            }
        }
    }
    (lo, hi)
}

/// The token of a flushed source run, if any.
fn classify_run(cur: &Vec<char>) -> (r: Option<InputToken>)
    ensures
        match r {
            Some(t) => spec_classify(cur@) == Some(t.deep()),
            None => spec_classify(cur@) is None,
        },
{
    let (lo, hi) = trim_bounds(cur);
    if lo >= hi {
        return None;
    }
    match parse_num_literal(cur, lo, hi) {
        Some(n) => Some(InputToken::Number(n)),
        None => Some(InputToken::Identifier(chars_to_string(cur, lo, hi))),
    }
}

/// The token of a flushed comment run, if any.
fn classify_comment_run(cur: &Vec<char>) -> (r: Option<InputToken>)
    ensures
        match r {
            Some(t) => spec_classify_comment(cur@) == Some(t.deep()),
            None => spec_classify_comment(cur@) is None,
        },
{
    let (lo, hi) = trim_bounds(cur);
    if lo >= hi {
        return None;
    }
    Some(InputToken::Comment(chars_to_string(cur, lo, hi)))
}

/// Lexes the source text into its token sequence.
pub fn lex(src: &str) -> (out: Vec<InputToken>)
    ensures
        deep_tokens(out@) == spec_lex(src@),
{
    let n = src.unicode_len();
    let mut out: Vec<InputToken> = Vec::new();
    let mut cur: Vec<char> = Vec::new();
    let mut inc = false;
    let mut i: usize = 0;
    proof {
        lemma_deep_tokens(out@);
        assert(deep_tokens(out@) + spec_lex_from(src@, 0, cur@, inc) =~= spec_lex(src@));
    }
    while i < n
        invariant
            n == src@.len(),
            i <= n,
            deep_tokens(out@) + spec_lex_from(src@, i as int, cur@, inc) == spec_lex(src@),
        decreases n - i,
    {
        let ch = src.get_char(i);
        let ghost cur0 = cur@;
        let ghost inc0 = inc;
        let ghost step = lex_step(ch, cur0, inc0);
        let ghost out0 = out@;
        proof {
            assert(spec_lex_from(src@, i as int, cur0, inc0) == step.0 + spec_lex_from(
                src@,
                i + 1,
                step.1,
                step.2,
            ));
        }
        if ch == ';' && !inc {
            inc = true;
            match classify_run(&cur) {
                Some(t) => out.push(t),
                None => (),
            }
            cur = Vec::new();
        } else if ch == '\n' && inc {
            inc = false;
            match classify_comment_run(&cur) {
                Some(t) => out.push(t),
                None => (),
            }
            cur = Vec::new();
        }
        if (is_space_exec(ch) || ch == '(' || ch == ')') && !inc {
            match classify_run(&cur) {
                Some(t) => out.push(t),
                None => (),
            }
            cur = Vec::new();
        }
        if ch == '(' && !inc {
            out.push(InputToken::StartParen);
        } else if ch == ')' && !inc {
            out.push(InputToken::EndParen);
        } else {
            cur.push(ch);
        }
        proof {
            lemma_deep_tokens(out@);
            lemma_deep_tokens(out0);
            assert(deep_tokens(out@) =~= deep_tokens(out0) + step.0) by {
                lemma_deep_tokens_extend(out0, out@, step.0);
            }
            assert(cur@ == step.1);
            assert(inc == step.2);
            assert(deep_tokens(out@) + spec_lex_from(src@, i + 1, cur@, inc) =~= (deep_tokens(out0)
                + spec_lex_from(src@, i as int, cur0, inc0)));
        }
        i = i + 1;
    }
    // End of input: flush the pending run or comment.
    let ghost out0 = out@;
    let ghost step_emitted = if inc {
        opt_tok(spec_classify_comment(cur@))
    } else {
        opt_tok(spec_classify(cur@))
    };
    if inc {
        match classify_comment_run(&cur) {
            Some(t) => out.push(t),
            None => (),
        }
    } else {
        match classify_run(&cur) {
            Some(t) => out.push(t),
            None => (),
        }
    }
    proof {
        lemma_deep_tokens_extend(out0, out@, step_emitted);
        assert(deep_tokens(out@) =~= deep_tokens(out0) + step_emitted);
        assert(deep_tokens(out@) =~= spec_lex(src@));
    }
    out
}

/// Pushing the shapes `emitted` onto `before` yields `after`.
proof fn lemma_deep_tokens_extend(before: Seq<InputToken>, after: Seq<InputToken>, emitted: Seq<TokenV>)
    requires
        after.len() == before.len() + emitted.len(),
        forall|i: int| 0 <= i < before.len() ==> after[i] == #[trigger] before[i],
        forall|i: int|
            0 <= i < emitted.len() ==> #[trigger] after[before.len() + i].deep() == emitted[i],
    ensures
        deep_tokens(after) =~= deep_tokens(before) + emitted,
{
    lemma_deep_tokens(before);
    lemma_deep_tokens(after);
    assert forall|i: int| 0 <= i < after.len() implies deep_tokens(after)[i] == (deep_tokens(
        before,
    ) + emitted)[i] by {
        if i < before.len() {
            assert(after[i] == before[i]);
        } else {
            assert(after[before.len() + (i - before.len())].deep() == emitted[i - before.len()]);
        }
    }
}

} // verus!
