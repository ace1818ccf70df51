//! Fixed-point numbers: the language's single numeric kind.
//!
//! A `Num` stores an integer count of millionths, so every value the
//! language manipulates is an exact multiple of 1/1_000_000. Decimal
//! literals with up to six fraction digits are represented exactly.

use vstd::prelude::*;

verus! {

/// Scale factor of the fixed-point representation: one unit is 1/MICRO.
pub const MICRO: i64 = 1_000_000;

/// A number: `raw` millionths.
#[derive(Debug, Clone, Copy, PartialEq, Eq, Structural)]
pub struct Num {
    pub raw: i64,
}

impl Num {
    /// The mathematical value of this number, in millionths.
    pub open spec fn value(self) -> int {
        self.raw as int
    }

    /// Checked addition on the fixed-point representation.
    pub fn checked_add(self, other: Num) -> (r: Option<Num>)
        ensures
            i64::MIN <= self.value() + other.value() <= i64::MAX ==> (r matches Some(n)
                && n.value() == self.value() + other.value()),
            !(i64::MIN <= self.value() + other.value() <= i64::MAX) ==> r is None,
    {
        if other.raw >= 0 {
            if self.raw <= i64::MAX - other.raw {
                Some(Num { raw: self.raw + other.raw })
            } else {
                None
            }
        } else {
            if self.raw >= i64::MIN - other.raw {
                Some(Num { raw: self.raw + other.raw })
            } else {
                None
            }
        }
    }

    /// Checked subtraction on the fixed-point representation.
    pub fn checked_sub(self, other: Num) -> (r: Option<Num>)
        ensures
            i64::MIN <= self.value() - other.value() <= i64::MAX ==> (r matches Some(n)
                && n.value() == self.value() - other.value()),
            !(i64::MIN <= self.value() - other.value() <= i64::MAX) ==> r is None,
    {
        if other.raw <= 0 {
            if self.raw <= i64::MAX + other.raw {
                Some(Num { raw: self.raw - other.raw })
            } else {
                None
            }
        } else {
            if self.raw >= i64::MIN + other.raw {
                Some(Num { raw: self.raw - other.raw })
            } else {
                None
            }
        }
    }

    /// Checked negation on the fixed-point representation.
    pub fn checked_neg(self) -> (r: Option<Num>)
        ensures
            self.value() != i64::MIN ==> (r matches Some(n) && n.value() == -self.value()),
            self.value() == i64::MIN ==> r is None,
    {
        if self.raw == i64::MIN {
            None
        } else {
            Some(Num { raw: -self.raw })
        }
    }

    /// The floor of this number as a non-negative index, saturating at
    /// zero for negative values.
    pub fn floor_index(self) -> (r: u64)
        ensures
            r as int == floor_index_of(self.value()),
    {
        if self.raw < 0 {
            0
        } else {
            (self.raw / MICRO) as u64
        }
    }
}

/// The index a number denotes: its floor, saturated at zero.
pub open spec fn floor_index_of(v: int) -> int {
    if v < 0 {
        0
    } else {
        v / (MICRO as int)
    }
}

/// Whether `c` is a decimal digit.
pub open spec fn is_digit(c: char) -> bool {
    '0' <= c && c <= '9'
}

/// The value of a decimal digit.
pub open spec fn digit_of(c: char) -> int {
    c as int - '0' as int
}

/// Whether every character of `s` is a decimal digit.
pub open spec fn all_digits(s: Seq<char>) -> bool {
    forall|i: int| 0 <= i < s.len() ==> is_digit(#[trigger] s[i])
}

/// The value of a digit string read in base ten.
pub open spec fn digits_val(s: Seq<char>) -> int
    decreases s.len(),
{
    if s.len() == 0 {
        0
    } else {
        digits_val(s.drop_last()) * 10 + digit_of(s.last())
    }
}

/// Ten to the `n`.
pub open spec fn pow10(n: nat) -> int
    decreases n,
{
    if n == 0 {
        1
    } else {
        10 * pow10((n - 1) as nat)
    }
}

/// The index of the first `.` in `s`, or `s.len()` if there is none.
pub open spec fn find_dot(s: Seq<char>) -> int
    decreases s.len(),
{
    if s.len() == 0 {
        0
    } else if s[0] == '.' {
        0
    } else {
        1 + find_dot(s.drop_first())
    }
}

/// The value, in millionths, of an unsigned decimal literal: digits with
/// at most one point and at most six fraction digits, and at least one
/// digit overall. `None` if `s` is not of that form.
pub open spec fn unsigned_literal_val(s: Seq<char>) -> Option<int> {
    let d = find_dot(s);
    let ip = s.subrange(0, d);
    let fp = if d == s.len() {
        Seq::<char>::empty()
    } else {
        s.subrange(d + 1, s.len() as int)
    };
    if all_digits(ip) && all_digits(fp) && ip.len() + fp.len() >= 1 && fp.len() <= 6 {
        Some(digits_val(ip) * (MICRO as int) + digits_val(fp) * pow10((6 - fp.len()) as nat))
    } else {
        None
    }
}

/// The number a token spells, in millionths: an optional sign, then an
/// unsigned decimal literal, provided the value is representable.
/// `None` if the token is not a representable numeric literal.
pub open spec fn spec_num_literal(s: Seq<char>) -> Option<int> {
    if s.len() == 0 {
        None
    } else {
        let neg = s[0] == '-';
        let body = if s[0] == '-' || s[0] == '+' {
            s.drop_first()
        } else {
            s
        };
        match unsigned_literal_val(body) {
            Some(v) => {
                let sv = if neg {
                    -v
                } else {
                    v
                };
                if -(i64::MAX as int) <= sv <= i64::MAX as int {
                    Some(sv)
                } else {
                    None
                }
            },
            None => None,
        }
    }
}

/// Digit strings denote non-negative values below ten to their length.
pub proof fn lemma_digits_bounds(s: Seq<char>)
    requires
        all_digits(s),
    ensures
        0 <= digits_val(s) < pow10(s.len()),
    decreases s.len(),
{
    if s.len() > 0 {
        assert(all_digits(s.drop_last())) by {
            assert(forall|i: int|
                0 <= i < s.len() - 1 ==> s.drop_last()[i] == #[trigger] s[i]);
        }
        lemma_digits_bounds(s.drop_last());
        assert(is_digit(s.last()));
    }
}

/// A digit string of all zeroes denotes zero.
pub proof fn lemma_zeros_val(s: Seq<char>)
    requires
        forall|i: int| 0 <= i < s.len() ==> #[trigger] s[i] == '0',
    ensures
        digits_val(s) == 0,
    decreases s.len(),
{
    if s.len() > 0 {
        lemma_zeros_val(s.drop_last());
    }
}

/// Leading zeroes do not change the value of a digit string.
pub proof fn lemma_strip_zeros(s: Seq<char>, z: int)
    requires
        0 <= z <= s.len(),
        forall|i: int| 0 <= i < z ==> #[trigger] s[i] == '0',
    ensures
        digits_val(s) == digits_val(s.subrange(z, s.len() as int)),
    decreases s.len(),
{
    if s.len() == z {
        lemma_zeros_val(s);
        assert(s.subrange(z, s.len() as int) =~= Seq::<char>::empty());
    } else {
        lemma_strip_zeros(s.drop_last(), z);
        assert(s.subrange(z, s.len() as int).drop_last() =~= s.drop_last().subrange(
            z,
            s.len() - 1,
        ));
        assert(s.subrange(z, s.len() as int).last() == s.last());
    }
}

/// A digit string without a leading zero is at least ten to one less
/// than its length.
pub proof fn lemma_digits_lower_bound(s: Seq<char>)
    requires
        all_digits(s),
        s.len() >= 1,
        s[0] != '0',
    ensures
        digits_val(s) >= pow10((s.len() - 1) as nat),
    decreases s.len(),
{
    if s.len() == 1 {
        assert(is_digit(s[0]));
    } else {
        assert(all_digits(s.drop_last())) by {
            assert(forall|i: int|
                0 <= i < s.len() - 1 ==> s.drop_last()[i] == #[trigger] s[i]);
        }
        assert(s.drop_last()[0] == s[0]);
        lemma_digits_lower_bound(s.drop_last());
        assert(is_digit(s.last()));
        lemma_digits_bounds(s.drop_last());
        assert(pow10((s.len() - 1) as nat) == 10 * pow10((s.len() - 2) as nat));
        assert(digits_val(s) == digits_val(s.drop_last()) * 10 + digit_of(s.last()));
        assert(digits_val(s.drop_last()) * 10 >= pow10((s.len() - 2) as nat) * 10);
    }
}

/// `find_dot` names the first point of `s`.
pub proof fn lemma_find_dot(s: Seq<char>)
    ensures
        0 <= find_dot(s) <= s.len(),
        find_dot(s) < s.len() ==> s[find_dot(s)] == '.',
        forall|i: int| 0 <= i < find_dot(s) ==> #[trigger] s[i] != '.',
    decreases s.len(),
{
    if s.len() > 0 && s[0] != '.' {
        lemma_find_dot(s.drop_first());
        assert(forall|i: int|
            0 <= i < s.len() - 1 ==> s.drop_first()[i] == #[trigger] s[i + 1]);
        assert forall|i: int| 0 <= i < find_dot(s) implies #[trigger] s[i] != '.' by {
            if i > 0 {
                assert(s.drop_first()[i - 1] != '.');
            }
        }
    }
}

/// Ten to a larger power is no smaller.
pub proof fn lemma_pow10_mono(a: nat, b: nat)
    requires
        a <= b,
    ensures
        1 <= pow10(a) <= pow10(b),
    decreases b,
{
    if a == 0 {
        lemma_pow10_nonneg(b);
    } else {
        lemma_pow10_mono((a - 1) as nat, (b - 1) as nat);
    }
}

/// Powers of ten are at least one.
pub proof fn lemma_pow10_nonneg(n: nat)
    ensures
        pow10(n) >= 1,
    decreases n,
{
    if n > 0 {
        lemma_pow10_nonneg((n - 1) as nat);
    }
}

/// Whether `c` is a decimal digit.
pub fn is_digit_exec(c: char) -> (r: bool)
    ensures
        r == is_digit(c),
{
    c >= '0' && c <= '9'
}

/// Scans `s[start..hi]` for the shape of an unsigned literal body:
/// digits with at most one point. On success reports where the point is;
/// on failure the span is no literal.
fn scan_literal_body(s: &Vec<char>, start: usize, hi: usize) -> (r: Result<Option<usize>, ()>)
    requires
        start <= hi <= s@.len(),
    ensures
        match r {
            Ok(dot) => match dot {
                Some(d) => start <= d < hi && s@[d as int] == '.' && (forall|i: int|
                    start <= i < hi && i != d ==> is_digit(#[trigger] s@[i])),
                None => forall|i: int| start <= i < hi ==> is_digit(#[trigger] s@[i]) && s@[i] != '.',
            },
            Err(()) => unsigned_literal_val(s@.subrange(start as int, hi as int)) is None,
        },
{
    let ghost body = s@.subrange(start as int, hi as int);
    let mut j = start;
    let mut dot: Option<usize> = None;
    while j < hi
        invariant
            start <= j <= hi <= s@.len(),
            body == s@.subrange(start as int, hi as int),
            match dot {
                Some(d) => start <= d < j && s@[d as int] == '.' && (forall|i: int|
                    start <= i < j && i != d ==> is_digit(#[trigger] s@[i]) && s@[i] != '.'),
                None => forall|i: int| start <= i < j ==> is_digit(#[trigger] s@[i]) && s@[i] != '.',
            },
        decreases hi - j,
    {
        let c = s[j];
        if c == '.' {
            match dot {
                Some(d) => {
                    // A second point: it lies past the first, so the
                    // fraction part is no digit string.
                    proof {
                        lemma_find_dot(body);
                        assert(body[d - start] == '.');
                        assert(find_dot(body) == d - start) by {
                            if find_dot(body) < d - start {
                                assert(s@[find_dot(body) + start] == '.');
                            }
                        }
                        let fp = body.subrange(d - start + 1, body.len() as int);
                        assert(fp[j - d - 1] == '.');
                        assert(!is_digit('.'));
                    }
                    return Err(());
                },
                None => {
                    dot = Some(j);
                },
            }
        } else if !is_digit_exec(c) {
            // Not a digit and not a point: whichever side of the point
            // it falls on is no digit string.
            proof {
                lemma_find_dot(body);
                let fd = find_dot(body);
                let ip = body.subrange(0, fd);
                let fp = if fd == body.len() {
                    Seq::<char>::empty()
                } else {
                    body.subrange(fd + 1, body.len() as int)
                };
                match dot {
                    Some(d) => {
                        assert(body[d - start] == '.');
                        assert(fd == d - start) by {
                            if fd < d - start {
                                assert(s@[fd + start] == '.');
                            }
                        }
                        assert(fp[j - d - 1] == s@[j as int]);
                        assert(!is_digit(fp[j - d - 1]));
                    },
                    None => {
                        if fd == body.len() {
                            assert(ip[j - start] == s@[j as int]);
                            assert(!is_digit(ip[j - start]));
                        } else {
                            // The first point lies at or past j, yet
                            // s[j] is not a point, so it lies past j.
                            assert(fd != j - start);
                            if fd < j - start {
                                assert(s@[fd + start] == '.');
                            }
                            assert(ip[j - start] == s@[j as int]);
                            assert(!is_digit(ip[j - start]));
                        }
                    },
                }
            }
            return Err(());
        }
        j = j + 1;
    }
    Ok(dot)
}

/// Exact powers of ten up to one million.
pub fn pow10_exec(n: u32) -> (r: i64)
    requires
        n <= 6,
    ensures
        r as int == pow10(n as nat),
        1 <= r <= 1_000_000,
{
    proof {
        reveal_with_fuel(pow10, 8);
    }
    if n == 0 {
        1
    } else if n == 1 {
        10
    } else if n == 2 {
        100
    } else if n == 3 {
        1_000
    } else if n == 4 {
        10_000
    } else if n == 5 {
        100_000
    } else {
        1_000_000
    }
}

/// Parses the characters `s[lo..hi]` as a numeric literal, yielding its
/// exact fixed-point value, or `None` where the span is no representable
/// numeric literal.
#[verifier::rlimit(60)]
pub fn parse_num_literal(s: &Vec<char>, lo: usize, hi: usize) -> (r: Option<Num>)
    requires
        lo <= hi <= s@.len(),
    ensures
        match r {
            Some(n) => spec_num_literal(s@.subrange(lo as int, hi as int)) == Some(n.value()),
            None => spec_num_literal(s@.subrange(lo as int, hi as int)) is None,
        },
{
    let ghost t = s@.subrange(lo as int, hi as int);
    if lo == hi {
        return None;
    }
    let c0 = s[lo];
    let neg = c0 == '-';
    let start = if c0 == '-' || c0 == '+' {
        lo + 1
    } else {
        lo
    };
    let ghost body = s@.subrange(start as int, hi as int);
    proof {
        if c0 == '-' || c0 == '+' {
            assert(body =~= t.drop_first());
        } else {
            assert(body =~= t);
        }
    }
    let dot = match scan_literal_body(s, start, hi) {
        Err(()) => {
            return None;
        },
        Ok(d) => d,
    };
    // Where the point is, and that `find_dot` agrees.
    let ipend: usize = match dot {
        Some(d) => d,
        None => hi,
    };
    proof {
        lemma_find_dot(body);
        match dot {
            Some(d) => {
                assert(body[d - start] == '.');
                assert(find_dot(body) == d - start) by {
                    if find_dot(body) < d - start {
                        assert(is_digit(s@[find_dot(body) + start]));
                    }
                }
            },
            None => {
                assert(find_dot(body) == body.len()) by {
                    if find_dot(body) < body.len() {
                        assert(s@[find_dot(body) + start] == '.');
                    }
                }
            },
        }
    }
    let ghost ip = body.subrange(0, find_dot(body));
    let ghost fp = if find_dot(body) == body.len() {
        Seq::<char>::empty()
    } else {
        body.subrange(find_dot(body) + 1, body.len() as int)
    };
    proof {
        assert(ip =~= s@.subrange(start as int, ipend as int));
        if dot is Some {
            assert(fp =~= s@.subrange(ipend + 1, hi as int));
        }
        assert(all_digits(ip));
        assert(all_digits(fp));
    }
    let fplen: usize = match dot {
        Some(d) => hi - d - 1,
        None => 0,
    };
    if fplen > 6 {
        return None;
    }
    let iplen = ipend - start;
    if iplen == 0 && fplen == 0 {
        return None;
    }
    // Skip leading zeroes of the integer part.
    let mut z = start;
    while z < ipend && s[z] == '0'
        invariant
            start <= z <= ipend <= s@.len(),
            forall|i: int| start <= i < z ==> #[trigger] s@[i] == '0',
        decreases ipend - z,
    {
        z = z + 1;
    }
    proof {
        lemma_strip_zeros(ip, z - start);
        assert(ip.subrange(z - start, ip.len() as int) =~= s@.subrange(z as int, ipend as int));
    }
    let ghost sig = s@.subrange(z as int, ipend as int);
    let cnt = ipend - z;
    if cnt > 13 {
        // Too many significant digits: the value exceeds the range.
        proof {
            assert(sig[0] == s@[z as int]);
            assert(is_digit(sig[0]) && sig[0] != '0');
            lemma_digits_lower_bound(sig);
            lemma_pow10_mono(13, (cnt - 1) as nat);
            lemma_digits_bounds(fp);
            lemma_pow10_nonneg((6 - fp.len()) as nat);
            assert(digits_val(fp) * pow10((6 - fp.len()) as nat) >= 0) by (nonlinear_arith)
                requires
                    digits_val(fp) >= 0,
                    pow10((6 - fp.len()) as nat) >= 1,
            ;
            assert(digits_val(ip) >= pow10(13));
            assert(pow10(13) == 10_000_000_000_000) by { reveal_with_fuel(pow10, 15); };
            assert(digits_val(ip) * (MICRO as int) >= 10_000_000_000_000 * 1_000_000)
                by (nonlinear_arith)
                requires
                    digits_val(ip) >= 10_000_000_000_000,
            ;
        }
        return None;
    }
    // The integer part, by digit.
    let mut intval: i64 = 0;
    let mut j = z;
    while j < ipend
        invariant
            start <= z <= j <= ipend <= s@.len(),
            ipend - z <= 13,
            sig == s@.subrange(z as int, ipend as int),
            all_digits(sig),
            intval == digits_val(s@.subrange(z as int, j as int)),
            0 <= intval < pow10((j - z) as nat),
        decreases ipend - j,
    {
        let c = s[j];
        proof {
            assert(sig[j - z] == s@[j as int]);
            assert(is_digit(s@[j as int]));
            let pre = s@.subrange(z as int, j + 1);
            assert(pre.drop_last() =~= s@.subrange(z as int, j as int));
            assert(pre.last() == s@[j as int]);
            lemma_pow10_mono((j + 1 - z) as nat, 13);
            assert(pow10(13) == 10_000_000_000_000) by { reveal_with_fuel(pow10, 15); };
        }
        let d = (c as u32 - 48) as i64;
        intval = intval * 10 + d;
        j = j + 1;
    }
    proof {
        assert(s@.subrange(z as int, ipend as int) == sig);
        assert(digits_val(ip) == intval);
        lemma_pow10_mono((ipend - z) as nat, 13);
        assert(pow10(13) == 10_000_000_000_000) by { reveal_with_fuel(pow10, 15); };
    }
    // The fraction part, by digit, then scaled to millionths.
    let mut fracval: i64 = 0;
    if fplen > 0 {
        let fstart = ipend + 1;
        let mut k = fstart;
        while k < hi
            invariant
                ipend + 1 == fstart <= k <= hi <= s@.len(),
                hi - fstart <= 6,
                fp == s@.subrange(fstart as int, hi as int),
                all_digits(fp),
                fracval == digits_val(s@.subrange(fstart as int, k as int)),
                0 <= fracval < pow10((k - fstart) as nat),
            decreases hi - k,
        {
            let c = s[k];
            proof {
                assert(fp[k - fstart] == s@[k as int]);
                assert(is_digit(s@[k as int]));
                let pre = s@.subrange(fstart as int, k + 1);
                assert(pre.drop_last() =~= s@.subrange(fstart as int, k as int));
                assert(pre.last() == s@[k as int]);
                lemma_pow10_mono((k + 1 - fstart) as nat, 6);
                assert(pow10(6) == 1_000_000) by { reveal_with_fuel(pow10, 15); };
            }
            let d = (c as u32 - 48) as i64;
            fracval = fracval * 10 + d;
            k = k + 1;
        }
        proof {
            assert(s@.subrange(fstart as int, hi as int) == fp);
            lemma_pow10_mono((hi - fstart) as nat, 6);
            assert(pow10(6) == 1_000_000) by { reveal_with_fuel(pow10, 15); };
        }
    } else {
        proof {
            if dot is Some {
                assert(fp =~= Seq::<char>::empty());
            }
            assert(digits_val(fp) == 0);
        }
    }
    let mult = pow10_exec(6 - fplen as u32);
    proof {
        lemma_digits_bounds(fp);
        assert(fracval * mult < 1_000_000_000_000 && fracval * mult >= 0) by (nonlinear_arith)
            requires
                0 <= fracval < 1_000_000,
                1 <= mult <= 1_000_000,
        ;
    }
    let scaled = fracval * mult;
    proof {
        assert(fracval * mult == digits_val(fp) * pow10((6 - fp.len()) as nat));
    }
    let total: i128 = (intval as i128) * (MICRO as i128) + (scaled as i128);
    if total > i64::MAX as i128 {
        return None;
    }
    let v = total as i64;
    if neg {
        Some(Num { raw: -v })
    } else {
        Some(Num { raw: v })
    }
}

} // verus!

