//! Decimal rendering of the language's numbers and of integer
//! coordinates.

use vstd::prelude::*;

use crate::num::MICRO;
use crate::num::Num;

verus! {

/// The character of a decimal digit value.
pub open spec fn digit_char(d: int) -> char {
    if d == 0 {
        '0'
    } else if d == 1 {
        '1'
    } else if d == 2 {
        '2'
    } else if d == 3 {
        '3'
    } else if d == 4 {
        '4'
    } else if d == 5 {
        '5'
    } else if d == 6 {
        '6'
    } else if d == 7 {
        '7'
    } else if d == 8 {
        '8'
    } else {
        '9'
    }
}

/// The decimal digits of a non-negative integer, shortest form.
pub open spec fn dec_digits(n: int) -> Seq<char>
    decreases n,
{
    if n < 10 {
        seq![digit_char(n)]
    } else {
        dec_digits(n / 10).push(digit_char(n % 10))
    }
}

/// The decimal digits of `n`, zero-padded to exactly `width` places.
pub open spec fn dec_pad(n: int, width: nat) -> Seq<char>
    decreases width,
{
    if width == 0 {
        Seq::empty()
    } else {
        dec_pad(n / 10, (width - 1) as nat).push(digit_char(n % 10))
    }
}

/// `s` with its trailing zero digits removed.
pub open spec fn strip_trailing_zeros(s: Seq<char>) -> Seq<char>
    decreases s.len(),
{
    if s.len() > 0 && s.last() == '0' {
        strip_trailing_zeros(s.drop_last())
    } else {
        s
    }
}

/// The decimal text of a signed integer.
pub open spec fn int_string(v: int) -> Seq<char> {
    if v < 0 {
        seq!['-'] + dec_digits(-v)
    } else {
        dec_digits(v)
    }
}

/// The decimal text of a fixed-point number (`v` in millionths): the
/// integer part, then a point and the fraction digits, zeros stripped,
/// when the fraction is not zero.
pub open spec fn num_string(v: int) -> Seq<char> {
    let a = if v < 0 {
        -v
    } else {
        v
    };
    let ip = a / (MICRO as int);
    let f = a % (MICRO as int);
    (if v < 0 {
        seq!['-']
    } else {
        Seq::<char>::empty()
    }) + dec_digits(ip) + (if f == 0 {
        Seq::<char>::empty()
    } else {
        seq!['.'] + strip_trailing_zeros(dec_pad(f, 6))
    })
}

/// The digit character of `d`.
pub fn digit_char_exec(d: u64) -> (r: char)
    requires
        d <= 9,
    ensures
        r == digit_char(d as int),
{
    if d == 0 {
        '0'
    } else if d == 1 {
        '1'
    } else if d == 2 {
        '2'
    } else if d == 3 {
        '3'
    } else if d == 4 {
        '4'
    } else if d == 5 {
        '5'
    } else if d == 6 {
        '6'
    } else if d == 7 {
        '7'
    } else if d == 8 {
        '8'
    } else {
        '9'
    }
}

/// Relies on `String::push`: appends the given character to the end of
/// the string.
#[verifier::external_body]
pub(crate) fn push_char(s: &mut String, c: char)
    ensures
        final(s)@ == old(s)@.push(c),
{
    s.push(c)
}

/// Writes the decimal digits of `n` onto the end of `out`.
pub fn append_dec_u128(out: &mut String, n: u128)
    ensures
        final(out)@ == old(out)@ + dec_digits(n as int),
    decreases n,
{
    if n < 10 {
        push_char(out, digit_char_exec(n as u64));
    } else {
        append_dec_u128(out, n / 10);
        push_char(out, digit_char_exec((n % 10) as u64));
        proof {
            assert(old(out)@ + dec_digits((n / 10) as int).push(digit_char((n % 10) as int))
                =~= (old(out)@ + dec_digits((n / 10) as int)).push(digit_char((n % 10) as int)));
        }
    }
    proof {
        if n < 10 {
            assert(old(out)@ + seq![digit_char(n as int)] =~= old(out)@.push(
                digit_char(n as int),
            ));
        }
    }
}

/// The decimal text of a signed integer.
pub fn int_to_string(v: i128) -> (r: String)
    ensures
        r@ == int_string(v as int),
{
    let mut out = String::new();
    if v < 0 {
        push_char(&mut out, '-');
        // The magnitude, computed without overflowing at the minimum.
        let m: u128 = (-(v + 1)) as u128 + 1;
        proof {
            assert(out@ =~= seq!['-']);
        }
        append_dec_u128(&mut out, m);
    } else {
        append_dec_u128(&mut out, v as u128);
        proof {
            assert(Seq::<char>::empty() + dec_digits(v as int) =~= dec_digits(v as int));
        }
    }
    out
}

/// How many digits of `s` remain once trailing zeros are stripped.
spec fn strip_len(s: Seq<char>) -> int
    decreases s.len(),
{
    if s.len() > 0 && s.last() == '0' {
        strip_len(s.drop_last())
    } else {
        s.len() as int
    }
}

/// `strip_trailing_zeros` keeps exactly the prefix up to the last
/// non-zero digit.
proof fn lemma_strip(s: Seq<char>)
    ensures
        0 <= strip_len(s) <= s.len(),
        strip_trailing_zeros(s) == s.subrange(0, strip_len(s)),
        forall|i: int| strip_len(s) <= i < s.len() ==> s[i] == '0',
        strip_len(s) > 0 ==> s[strip_len(s) - 1] != '0',
    decreases s.len(),
{
    if s.len() > 0 && s.last() == '0' {
        lemma_strip(s.drop_last());
        assert(s.drop_last().subrange(0, strip_len(s)) =~= s.subrange(0, strip_len(s)));
        assert(forall|i: int|
            0 <= i < s.len() - 1 ==> s.drop_last()[i] == #[trigger] s[i]);
    } else {
        assert(s.subrange(0, s.len() as int) =~= s);
    }
}

/// The decimal text of a fixed-point number.
pub fn num_to_string(n: &Num) -> (r: String)
    ensures
        r@ == num_string(n.value()),
{
    let mut out = String::new();
    let a: i128 = if n.raw < 0 {
        push_char(&mut out, '-');
        -(n.raw as i128)
    } else {
        n.raw as i128
    };
    let ip = (a / (MICRO as i128)) as u128;
    let f = (a % (MICRO as i128)) as u64;
    append_dec_u128(&mut out, ip);
    let ghost head = out@;
    if f != 0 {
        push_char(&mut out, '.');
        // The six fraction digits, then the trailing zeros dropped.
        let mut digits: Vec<char> = Vec::new();
        let mut w: u64 = 6;
        let mut rest = f;
        while w > 0
            invariant
                w <= 6,
                rest >= 0,
                dec_pad(f as int, 6) =~= dec_pad(rest as int, w as nat) + digits@,
            decreases w,
        {
            let ghost digits0 = digits@;
            let ghost rest0 = rest as int;
            let d = rest % 10;
            digits.insert(0, digit_char_exec(d));
            rest = rest / 10;
            w = w - 1;
            proof {
                assert(digits@ =~= seq![digit_char(rest0 % 10)] + digits0);
                assert(dec_pad(rest0, (w + 1) as nat) == dec_pad(rest0 / 10, w as nat).push(
                    digit_char(rest0 % 10),
                ));
                assert(rest as int == rest0 / 10);
                assert(dec_pad(rest as int, w as nat).push(digit_char(rest0 % 10)) + digits0
                    =~= dec_pad(rest as int, w as nat) + digits@);
            }
        }
        proof {
            assert(dec_pad(rest as int, 0) =~= Seq::<char>::empty());
            assert(dec_pad(f as int, 6) =~= digits@);
            lemma_strip(digits@);
        }
        // Find where the trailing zeros begin.
        let mut cut: usize = digits.len();
        while cut > 0 && digits[cut - 1] == '0'
            invariant
                cut <= digits@.len(),
                forall|i: int| cut <= i < digits@.len() ==> digits@[i] == '0',
            decreases cut,
        {
            cut = cut - 1;
        }
        proof {
            assert(cut as int == strip_len(digits@)) by {
                lemma_strip(digits@);
                if (cut as int) < strip_len(digits@) {
                    assert(digits@[strip_len(digits@) - 1] == '0');
                } else if (cut as int) > strip_len(digits@) {
                    assert(digits@[cut - 1] == '0');
                }
            }
        }
        let mut i: usize = 0;
        while i < cut
            invariant
                i <= cut <= digits@.len(),
                cut as int == strip_len(digits@),
                out@ == head.push('.') + digits@.subrange(0, i as int),
            decreases cut - i,
        {
            push_char(&mut out, digits[i]);
            proof {
                assert(head.push('.') + digits@.subrange(0, i + 1) =~= (head.push('.')
                    + digits@.subrange(0, i as int)).push(digits@[i as int]));
            }
            i = i + 1;
        }
        proof {
            lemma_strip(digits@);
            assert(out@ =~= head + (seq!['.'] + strip_trailing_zeros(digits@)));
        }
    } else {
        proof {
            assert(out@ =~= head + Seq::<char>::empty());
        }
    }
    proof {
        if n.raw < 0 {
            assert(out@ =~= num_string(n.value()));
        } else {
            assert(Seq::<char>::empty() + dec_digits((a / (MICRO as i128)) as int)
                =~= dec_digits((a / (MICRO as i128)) as int));
            assert(out@ =~= num_string(n.value()));
        }
    }
    out
}

} // verus!
