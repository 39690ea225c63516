use crate::rational::{from_frac, lemma_from_frac_denotes, make, Rational};
use vstd::prelude::*;

verus! {

/// Why an input could not be read as a problem.
#[derive(Clone, Copy, Debug, PartialEq, Eq, Structural)]
pub enum ParseError {
    /// A line shorter than the two characters of the comment check.
    ShortLine,
    /// A term that is not a decimal number.
    BadNumber,
    /// A number too large, or too finely divided, for a `Rational`.
    OutOfRange,
    /// No line besides comments.
    NoRows,
    /// Rows of different widths.
    RaggedRows,
}

/// Mantissas at or above this bound are out of range.
pub const MANTISSA_BOUND: i128 = 1_000_000_000_000_000_000_000_000_000_000_000_000;

/// Exponent magnitudes are read up to this value; anything larger is out of
/// range in any case.
pub const EXPONENT_CAP: i128 = 1000;

/// Fraction digits beyond this count are out of range.
pub const MAX_FRACTION_DIGITS: usize = 36;

pub open spec fn is_digit(c: char) -> bool {
    '0' <= c && c <= '9'
}

pub open spec fn digit_value(c: char) -> int {
    c as int - '0' as int
}

/// The term without a leading `+` or `-`.
pub open spec fn unsigned_part(t: Seq<char>) -> Seq<char> {
    if t.len() > 0 && (t[0] == '-' || t[0] == '+') {
        t.skip(1)
    } else {
        t
    }
}

pub open spec fn is_negated(t: Seq<char>) -> bool {
    t.len() > 0 && t[0] == '-'
}

pub open spec fn count_dots(s: Seq<char>) -> nat
    decreases s.len(),
{
    if s.len() == 0 {
        0
    } else {
        count_dots(s.drop_last()) + if s.last() == '.' { 1nat } else { 0nat }
    }
}

pub open spec fn count_digits(s: Seq<char>) -> nat
    decreases s.len(),
{
    if s.len() == 0 {
        0
    } else {
        count_digits(s.drop_last()) + if is_digit(s.last()) { 1nat } else { 0nat }
    }
}

/// The digits of `s`, read as one integer with the dot ignored.
pub open spec fn mantissa(s: Seq<char>) -> int
    decreases s.len(),
{
    if s.len() == 0 {
        0
    } else if s.last() == '.' {
        mantissa(s.drop_last())
    } else {
        mantissa(s.drop_last()) * 10 + digit_value(s.last())
    }
}

/// The number of characters after the dot (zero without one).
pub open spec fn fraction_digits(s: Seq<char>) -> nat
    decreases s.len(),
{
    if s.len() == 0 || s.last() == '.' {
        0
    } else if count_dots(s.drop_last()) > 0 {
        fraction_digits(s.drop_last()) + 1
    } else {
        0
    }
}

pub open spec fn pow10(k: nat) -> int
    decreases k,
{
    if k == 0 {
        1
    } else {
        10 * pow10((k - 1) as nat)
    }
}

pub open spec fn is_exp_mark(c: char) -> bool {
    c == 'e' || c == 'E'
}

/// The part of `b` before its first exponent mark (all of `b` without one).
pub open spec fn before_exp(b: Seq<char>) -> Seq<char>
    decreases b.len(),
{
    if b.len() == 0 {
        b
    } else if is_exp_mark(b[0]) {
        Seq::<char>::empty()
    } else {
        seq![b[0]] + before_exp(b.skip(1))
    }
}

/// The digits and dot of the term, before any exponent.
pub open spec fn significand(t: Seq<char>) -> Seq<char> {
    before_exp(unsigned_part(t))
}

pub open spec fn has_exponent(t: Seq<char>) -> bool {
    significand(t).len() < unsigned_part(t).len()
}

/// What follows the exponent mark.
pub open spec fn exponent_text(t: Seq<char>) -> Seq<char> {
    unsigned_part(t).skip(significand(t).len() as int + 1)
}

/// An optional sign, then at least one digit.
pub open spec fn is_exponent(x: Seq<char>) -> bool {
    let d = unsigned_part(x);
    &&& d.len() >= 1
    &&& forall|i: int| 0 <= i < d.len() ==> is_digit(#[trigger] d[i])
}

pub open spec fn exponent_value(x: Seq<char>) -> int {
    if is_negated(x) {
        -mantissa(unsigned_part(x))
    } else {
        mantissa(unsigned_part(x))
    }
}

/// An optional sign, then digits with at most one dot among them, then
/// optionally `e` or `E` and a signed integer exponent.
pub open spec fn is_decimal(t: Seq<char>) -> bool {
    let s = significand(t);
    &&& forall|i: int| 0 <= i < s.len() ==> is_digit(#[trigger] s[i]) || s[i] == '.'
    &&& count_dots(s) <= 1
    &&& count_digits(s) >= 1
    &&& has_exponent(t) ==> is_exponent(exponent_text(t))
}

/// The power of ten the significand's digits are scaled by.
pub open spec fn scale(t: Seq<char>) -> int {
    (if has_exponent(t) { exponent_value(exponent_text(t)) } else { 0 }) - fraction_digits(significand(t))
}

/// The exact value of a decimal term.
pub open spec fn number_value(t: Seq<char>) -> Result<Rational, ParseError> {
    let s = significand(t);
    let k = scale(t);
    if !is_decimal(t) {
        Err(ParseError::BadNumber)
    } else if mantissa(s) >= MANTISSA_BOUND || fraction_digits(s) > MAX_FRACTION_DIGITS || k
        > MAX_FRACTION_DIGITS || k < -MAX_FRACTION_DIGITS {
        Err(ParseError::OutOfRange)
    } else if k >= 0 && mantissa(s) * pow10(k as nat) >= MANTISSA_BOUND {
        Err(ParseError::OutOfRange)
    } else {
        let a = if k >= 0 { mantissa(s) * pow10(k as nat) } else { mantissa(s) };
        let n = if is_negated(t) { -a } else { a };
        let d = if k >= 0 { 1 } else { pow10((-k) as nat) };
        match from_frac(n, d) {
            Some(r) => Ok(r),
            None => Err(ParseError::OutOfRange),
        }
    }
}

proof fn lemma_pow10_add(a: nat, b: nat)
    ensures
        pow10(a + b) == pow10(a) * pow10(b),
    decreases a,
{
    if a > 0 {
        lemma_pow10_add((a - 1) as nat, b);
        assert(pow10(a + b) == 10 * pow10((a + b - 1) as nat));
        assert(((a + b - 1) as nat) == ((a - 1) as nat) + b);
        assert(pow10(a + b) == 10 * (pow10((a - 1) as nat) * pow10(b)));
        assert(10 * (pow10((a - 1) as nat) * pow10(b)) == (10 * pow10((a - 1) as nat)) * pow10(b)) by (nonlinear_arith);
    }
}

proof fn lemma_mantissa_nonneg(s: Seq<char>)
    requires
        forall|i: int| 0 <= i < s.len() ==> is_digit(#[trigger] s[i]) || s[i] == '.',
    ensures
        mantissa(s) >= 0,
    decreases s.len(),
{
    if s.len() > 0 {
        lemma_mantissa_nonneg(s.drop_last());
    }
}

proof fn lemma_pow10_grows(k: nat)
    requires
        k <= MAX_FRACTION_DIGITS,
    ensures
        0 < pow10(k) <= pow10(MAX_FRACTION_DIGITS as nat),
    decreases MAX_FRACTION_DIGITS - k,
{
    if k < MAX_FRACTION_DIGITS {
        lemma_pow10_grows(k + 1);
        assert(pow10(k + 1) == 10 * pow10(k));
    } else {
        lemma_pow10_positive(k);
    }
}

proof fn lemma_pow10_positive(k: nat)
    ensures
        pow10(k) > 0,
    decreases k,
{
    if k > 0 {
        lemma_pow10_positive((k - 1) as nat);
    }
}

fn pow10_exec(k: usize) -> (r: i128)
    requires
        k <= MAX_FRACTION_DIGITS,
    ensures
        r == pow10(k as nat),
        r > 0,
{
    proof {
        reveal_with_fuel(pow10, 37);
        assert(pow10(MAX_FRACTION_DIGITS as nat) == 1_000_000_000_000_000_000_000_000_000_000_000_000int);
    }
    let mut r: i128 = 1;
    let mut i: usize = 0;
    while i < k
        invariant
            i <= k <= MAX_FRACTION_DIGITS,
            r == pow10(i as nat),
            pow10(MAX_FRACTION_DIGITS as nat) == 1_000_000_000_000_000_000_000_000_000_000_000_000int,
        decreases k - i,
    {
        proof { lemma_pow10_grows((i + 1) as nat); }
        assert(pow10((i + 1) as nat) == 10 * pow10(i as nat));
        r = r * 10;
        i += 1;
    }
    proof { lemma_pow10_positive(k as nat); }
    r
}

/// The exponent written from position `from` of `t` on: its sign and its
/// magnitude capped at `EXPONENT_CAP`, or `None` where it is not an optional
/// sign followed by digits.
fn read_exponent(t: &Vec<char>, from: usize) -> (r: Option<(bool, i128)>)
    requires
        from <= t@.len(),
    ensures
        r is Some <==> is_exponent(t@.skip(from as int)),
        r matches Some((neg, v)) ==> {
            let x = t@.skip(from as int);
            &&& neg == is_negated(x)
            &&& mantissa(unsigned_part(x)) >= 0
            &&& v == if mantissa(unsigned_part(x)) < EXPONENT_CAP {
                mantissa(unsigned_part(x))
            } else {
                EXPONENT_CAP as int
            }
        },
{
    let ghost x = t@.skip(from as int);
    let n = t.len();
    let mut neg = false;
    let mut j: usize = from;
    if j < n && (t[j] == '-' || t[j] == '+') {
        neg = t[j] == '-';
        j += 1;
    }
    let ds = j;
    let ghost d = unsigned_part(x);
    assert(d =~= t@.skip(ds as int));
    let mut ev: i128 = 0;
    while j < n
        invariant
            n == t@.len(),
            ds <= j <= n,
            d == t@.skip(ds as int),
            d == unsigned_part(t@.skip(from as int)),
            ({
                let p = d.subrange(0, j - ds);
                &&& forall|k: int| 0 <= k < p.len() ==> is_digit(#[trigger] p[k])
                &&& ev == if mantissa(p) < EXPONENT_CAP { mantissa(p) } else { EXPONENT_CAP as int }
            }),
        decreases n - j,
    {
        let c = t[j];
        let ghost p = d.subrange(0, j - ds);
        let ghost q = d.subrange(0, j + 1 - ds);
        assert(q.drop_last() =~= p);
        assert(q.last() == c);
        proof { lemma_mantissa_nonneg(p); }
        if '0' <= c && c <= '9' {
            let dv = (c as u32 - '0' as u32) as i128;
            assert(dv == digit_value(c));
            if ev < EXPONENT_CAP {
                let v = ev * 10 + dv;
                ev = if v > EXPONENT_CAP { EXPONENT_CAP } else { v };
            }
        } else {
            assert(d[j - ds] == c);
            return None;
        }
        j += 1;
    }
    assert(d.subrange(0, n - ds) =~= d);
    if j == ds {
        return None;
    }
    proof { lemma_mantissa_nonneg(d); }
    Some((neg, ev))
}

/// The exact value of a decimal term: an optional sign, then digits with
/// at most one dot among them, then optionally `e` or `E` and a signed
/// integer exponent.
pub fn parse_number(t: &Vec<char>) -> (r: Result<Rational, ParseError>)
    ensures
        r == number_value(t@),
        r matches Ok(v) ==> v.wf(),
{
    let n = t.len();
    let signed = n > 0 && (t[0] == '-' || t[0] == '+');
    let negative = n > 0 && t[0] == '-';
    let start: usize = if signed { 1 } else { 0 };
    let ghost b = unsigned_part(t@);
    assert(b =~= t@.skip(start as int));
    assert(b.subrange(0, 0) + before_exp(b.skip(0)) =~= before_exp(b)) by {
        assert(b.skip(0) =~= b);
    }
    let mut mant: i128 = 0;
    let mut dots: usize = 0;
    let mut digits: usize = 0;
    let mut frac: usize = 0;
    let mut i: usize = start;
    while i < n && t[i] != 'e' && t[i] != 'E'
        invariant
            n == t@.len(),
            start <= i <= n,
            b == t@.skip(start as int),
            b == unsigned_part(t@),
            before_exp(b) == b.subrange(0, i - start) + before_exp(b.skip(i - start)),
            ({
                let p = b.subrange(0, i - start);
                &&& forall|k: int| 0 <= k < p.len() ==> is_digit(#[trigger] p[k]) || p[k] == '.'
                &&& dots == count_dots(p)
                &&& digits == count_digits(p)
                &&& frac == fraction_digits(p)
                &&& mant == if mantissa(p) < MANTISSA_BOUND { mantissa(p) } else { MANTISSA_BOUND as int }
            }),
            dots <= i,
            digits <= i,
            frac <= i,
        decreases n - i,
    {
        let c = t[i];
        let ghost p = b.subrange(0, i - start);
        let ghost q = b.subrange(0, i + 1 - start);
        assert(q.drop_last() =~= p);
        assert(q.last() == c);
        assert(b.skip(i - start).skip(1) =~= b.skip(i + 1 - start));
        assert(q =~= p + seq![c]);
        assert(before_exp(b) =~= q + before_exp(b.skip(i + 1 - start)));
        proof { lemma_mantissa_nonneg(p); }
        if c == '.' {
            dots += 1;
            frac = 0;
        } else if '0' <= c && c <= '9' {
            digits += 1;
            if dots > 0 {
                frac += 1;
            }
            let d = (c as u32 - '0' as u32) as i128;
            assert(d == digit_value(c));
            if mant < MANTISSA_BOUND {
                let v = mant * 10 + d;
                mant = if v > MANTISSA_BOUND { MANTISSA_BOUND } else { v };
            }
        } else {
            assert(before_exp(b)[i - start] == c);
            assert(!is_decimal(t@));
            return Err(ParseError::BadNumber);
        }
        i += 1;
    }
    let ghost sig = b.subrange(0, i - start);
    assert(before_exp(b.skip(i - start)) =~= Seq::<char>::empty()) by {
        if i == n {
            assert(b.skip(i - start) =~= Seq::<char>::empty());
        }
    }
    assert(sig =~= significand(t@));
    // The exponent, its magnitude capped at `EXPONENT_CAP`.
    let mut exp_negative = false;
    let mut ev: i128 = 0;
    if i < n {
        assert(t@.skip(i + 1) =~= exponent_text(t@));
        match read_exponent(t, i + 1) {
            None => {
                return Err(ParseError::BadNumber);
            },
            Some((neg, v)) => {
                exp_negative = neg;
                ev = v;
            },
        }
    }
    if dots > 1 || digits == 0 {
        return Err(ParseError::BadNumber);
    }
    if mant >= MANTISSA_BOUND || frac > MAX_FRACTION_DIGITS {
        return Err(ParseError::OutOfRange);
    }
    let sc: i128 = (if exp_negative { -ev } else { ev }) - frac as i128;
    if sc > MAX_FRACTION_DIGITS as i128 || sc < -(MAX_FRACTION_DIGITS as i128) {
        return Err(ParseError::OutOfRange);
    }
    assert(sc == scale(t@));
    proof { lemma_mantissa_nonneg(sig); }
    let (abs_num, den): (i128, i128) = if sc >= 0 {
        let p = pow10_exec(sc as usize);
        let limit = MANTISSA_BOUND / p;
        proof {
            lemma_pow10_add(sc as nat, (MAX_FRACTION_DIGITS - sc) as nat);
            lemma_pow10_exact();
            lemma_pow10_positive((MAX_FRACTION_DIGITS - sc) as nat);
            let rest = pow10((MAX_FRACTION_DIGITS - sc) as nat);
            assert(MANTISSA_BOUND == p * rest);
            assert(limit == rest) by (nonlinear_arith)
                requires MANTISSA_BOUND == p * rest, limit == MANTISSA_BOUND / p, p > 0;
            assert(mant >= limit <==> mant * p >= MANTISSA_BOUND) by (nonlinear_arith)
                requires MANTISSA_BOUND == p * limit, p > 0;
        }
        if mant >= limit {
            return Err(ParseError::OutOfRange);
        }
        (mant * p, 1)
    } else {
        (mant, pow10_exec((-sc) as usize))
    };
    let num = if negative { -abs_num } else { abs_num };
    match make(num, den) {
        Some(r) => {
            proof { lemma_from_frac_denotes(num as int, den as int); }
            Ok(r)
        },
        None => Err(ParseError::OutOfRange),
    }
}

proof fn lemma_pow10_exact()
    ensures
        pow10(MAX_FRACTION_DIGITS as nat) == MANTISSA_BOUND,
{
    reveal_with_fuel(pow10, 37);
}

} // verus!
