use vstd::prelude::*;
use vstd::arithmetic::div_mod::*;
use vstd::arithmetic::mul::*;

use crate::custom_error::{CustomError, IntErrorKindClone};

verus! {

/// Exponent used when none is given: nine fractional digits.
pub const DEFAULT_EXPONENT: i8 = -9;

/// A fixed-point decimal: the number it stands for is `value * 10^exponent`.
#[derive(Debug, Clone, Copy, PartialEq, Eq, Structural)]
pub struct DecimalFixed {
    pub value: i64,
    pub exponent: i8,
}

// ---------------------------------------------------------------------------
// Mathematical model

pub open spec fn pow10(n: nat) -> nat
    decreases n,
{
    if n == 0 {
        1
    } else {
        10 * pow10((n - 1) as nat)
    }
}

pub open spec fn fits_i64(x: int) -> bool {
    i64::MIN <= x <= i64::MAX
}

pub open spec fn fits_i8(x: int) -> bool {
    i8::MIN <= x <= i8::MAX
}

pub open spec fn abs(x: int) -> int {
    if x < 0 {
        -x
    } else {
        x
    }
}

/// Integer division rounding toward zero.
pub open spec fn trunc_div(a: int, b: int) -> int {
    let q = abs(a) / abs(b);
    if (a < 0) != (b < 0) {
        -q
    } else {
        q
    }
}

pub open spec fn min_int(a: int, b: int) -> int {
    if a <= b {
        a
    } else {
        b
    }
}

/// `x * 10^k` when it fits in an `i64`, else an overflow.
pub open spec fn checked_scale(x: int, k: nat) -> Result<int, CustomError> {
    if fits_i64(x * pow10(k)) {
        Ok(x * pow10(k))
    } else {
        Err(CustomError::MathOverflow)
    }
}

pub open spec fn decimal_of(value: int, exponent: int) -> DecimalFixed {
    DecimalFixed { value: value as i64, exponent: exponent as i8 }
}

impl DecimalFixed {
    /// Result of `new`: the integer `value` expressed at the requested exponent.
    pub open spec fn spec_new(value: i64, exponent: int) -> Result<DecimalFixed, CustomError> {
        if exponent >= 0 {
            Ok(decimal_of(trunc_div(value as int, pow10(exponent as nat) as int), exponent))
        } else {
            match checked_scale(value as int, (-exponent) as nat) {
                Ok(v) => Ok(decimal_of(v, exponent)),
                Err(e) => Err(e),
            }
        }
    }

    /// Sum of two decimals at the smaller of their exponents.
    pub open spec fn spec_add(a: DecimalFixed, b: DecimalFixed) -> Result<DecimalFixed, CustomError> {
        let e = min_int(a.exponent as int, b.exponent as int);
        let x = a.value * pow10((a.exponent - e) as nat);
        let y = b.value * pow10((b.exponent - e) as nat);
        if fits_i64(x) && fits_i64(y) && fits_i64(x + y) {
            Ok(decimal_of(x + y, e))
        } else {
            Err(CustomError::MathOverflow)
        }
    }

    pub open spec fn spec_negate(a: DecimalFixed) -> Result<DecimalFixed, CustomError> {
        if a.value == i64::MIN {
            Err(CustomError::MathOverflow)
        } else {
            Ok(decimal_of(-a.value, a.exponent as int))
        }
    }

    /// Difference of two decimals at the smaller of their exponents.
    pub open spec fn spec_subtract(a: DecimalFixed, b: DecimalFixed) -> Result<DecimalFixed, CustomError> {
        let e = min_int(a.exponent as int, b.exponent as int);
        let x = a.value * pow10((a.exponent - e) as nat);
        let y = b.value * pow10((b.exponent - e) as nat);
        if fits_i64(x) && fits_i64(y) && fits_i64(x - y) {
            Ok(decimal_of(x - y, e))
        } else {
            Err(CustomError::MathOverflow)
        }
    }

    /// Product at the common exponent `e`, truncated toward zero.
    pub open spec fn keep_mul_value(a: int, b: int, e: int) -> int {
        if e >= 0 {
            a * b * pow10(e as nat)
        } else {
            trunc_div(a * b, pow10((-e) as nat) as int)
        }
    }

    /// Quotient at the common exponent `e`, truncated toward zero.
    pub open spec fn keep_div_value(a: int, b: int, e: int) -> int {
        if e >= 0 {
            trunc_div(trunc_div(a, pow10(e as nat) as int), b)
        } else {
            trunc_div(a * pow10((-e) as nat), b)
        }
    }

    pub open spec fn spec_multiply(a: DecimalFixed, b: DecimalFixed) -> Result<DecimalFixed, CustomError> {
        if a.exponent != b.exponent {
            Err(CustomError::Unimplemented)
        } else {
            let v = Self::keep_mul_value(a.value as int, b.value as int, a.exponent as int);
            if fits_i64(v) {
                Ok(decimal_of(v, a.exponent as int))
            } else {
                Err(CustomError::MathOverflow)
            }
        }
    }

    pub open spec fn spec_multiply_no_keep_exp(a: DecimalFixed, b: DecimalFixed) -> Result<DecimalFixed, CustomError> {
        let v = a.value * b.value;
        let e = a.exponent + b.exponent;
        if fits_i64(v) && fits_i8(e) {
            Ok(decimal_of(v, e))
        } else {
            Err(CustomError::MathOverflow)
        }
    }

    pub open spec fn spec_divide(a: DecimalFixed, b: DecimalFixed) -> Result<DecimalFixed, CustomError> {
        if b.value == 0 {
            Err(CustomError::BadInput)
        } else if a.exponent != b.exponent {
            Err(CustomError::Unimplemented)
        } else {
            let v = Self::keep_div_value(a.value as int, b.value as int, a.exponent as int);
            if fits_i64(v) {
                Ok(decimal_of(v, a.exponent as int))
            } else {
                Err(CustomError::MathOverflow)
            }
        }
    }

    pub open spec fn spec_divide_no_keep_exp(a: DecimalFixed, b: DecimalFixed) -> Result<DecimalFixed, CustomError> {
        if b.value == 0 {
            Err(CustomError::BadInput)
        } else {
            let v = trunc_div(a.value as int, b.value as int);
            let e = a.exponent - b.exponent;
            if fits_i64(v) && fits_i8(e) {
                Ok(decimal_of(v, e))
            } else {
                Err(CustomError::MathOverflow)
            }
        }
    }
}


// ---------------------------------------------------------------------------
// Text model

pub open spec fn is_digit(c: char) -> bool {
    '0' <= c <= '9'
}

pub open spec fn all_digits(s: Seq<char>) -> bool {
    forall|i: int| 0 <= i < s.len() ==> is_digit(#[trigger] s[i])
}

pub open spec fn digit_value(c: char) -> nat {
    (c as int - '0' as int) as nat
}

pub open spec fn digit_char(d: nat) -> char {
    (d + '0' as nat) as char
}

/// The number that a run of decimal digits denotes.
pub open spec fn digits_value(s: Seq<char>) -> nat
    decreases s.len(),
{
    if s.len() == 0 {
        0
    } else {
        digits_value(s.drop_last()) * 10 + digit_value(s.last())
    }
}

/// Index of the first '.' at or after `i`, or the length when there is none.
pub open spec fn dot_from(s: Seq<char>, i: int) -> int
    decreases s.len() - i,
{
    if i >= s.len() {
        s.len() as int
    } else if s[i] == '.' {
        i
    } else {
        dot_from(s, i + 1)
    }
}

pub open spec fn whole_text(s: Seq<char>) -> Seq<char> {
    s.take(dot_from(s, 0))
}

/// What follows the first '.', empty when there is none.
pub open spec fn frac_text_of(s: Seq<char>) -> Seq<char> {
    if dot_from(s, 0) < s.len() {
        s.skip(dot_from(s, 0) + 1)
    } else {
        Seq::empty()
    }
}

pub open spec fn signed(neg: bool, m: int) -> int {
    if neg {
        -m
    } else {
        m
    }
}

/// An optionally signed run of digits, read as an `i64` would be:
/// the sign and the magnitude, or why it is not one.
pub open spec fn int_part(w: Seq<char>) -> Result<(bool, nat), IntErrorKindClone> {
    if w.len() == 0 {
        Err(IntErrorKindClone::Empty)
    } else {
        let neg = w[0] == '-';
        let digits = if w[0] == '-' || w[0] == '+' {
            w.drop_first()
        } else {
            w
        };
        if digits.len() == 0 || !all_digits(digits) {
            Err(IntErrorKindClone::InvalidDigit)
        } else if !fits_i64(signed(neg, digits_value(digits) as int)) {
            if neg {
                Err(IntErrorKindClone::NegOverflow)
            } else {
                Err(IntErrorKindClone::PosOverflow)
            }
        } else {
            Ok((neg, digits_value(digits)))
        }
    }
}

/// Fractional digits cut or zero-padded to exactly `m` digits, as a number.
pub open spec fn frac_value(f: Seq<char>, m: nat) -> nat {
    if f.len() >= m {
        digits_value(f.take(m as int))
    } else {
        digits_value(f) * pow10((m - f.len()) as nat)
    }
}

/// Digits of `n` without leading zeros ("0" for zero).
pub open spec fn nat_digits(n: nat) -> Seq<char>
    decreases n,
{
    if n < 10 {
        seq![digit_char(n)]
    } else {
        nat_digits(n / 10).push(digit_char(n % 10))
    }
}

/// The last `w` digits of `n`, with leading zeros.
pub open spec fn padded_digits(n: nat, w: nat) -> Seq<char>
    decreases w,
{
    if w == 0 {
        Seq::empty()
    } else {
        padded_digits(n / 10, (w - 1) as nat).push(digit_char(n % 10))
    }
}

/// A fraction of `w` digits with its trailing zeros removed.
pub open spec fn frac_digits(f: nat, w: nat) -> Seq<char>
    decreases w,
{
    if w > 0 && f % 10 == 0 {
        frac_digits(f / 10, (w - 1) as nat)
    } else {
        padded_digits(f, w)
    }
}

pub open spec fn sign_text(neg: bool) -> Seq<char> {
    if neg {
        seq!['-']
    } else {
        Seq::empty()
    }
}

impl DecimalFixed {
    /// Result of `parse_static_exp` with the exponent already chosen.
    pub open spec fn spec_parse_static(s: Seq<char>, exp: int) -> Result<DecimalFixed, CustomError> {
        if exp >= 0 {
            Err(CustomError::Unimplemented)
        } else if s.len() == 0 {
            Err(CustomError::BadInput)
        } else {
            match int_part(whole_text(s)) {
                Err(k) => Err(CustomError::ParseIntError(k)),
                Ok((neg, w)) => {
                    let m = (-exp) as nat;
                    let f = frac_text_of(s);
                    if !fits_i64(signed(neg, (w * pow10(m)) as int)) {
                        Err(CustomError::MathOverflow)
                    } else if !all_digits(f) {
                        Err(CustomError::ParseIntError(IntErrorKindClone::InvalidDigit))
                    } else {
                        let v = signed(neg, (w * pow10(m) + frac_value(f, m)) as int);
                        if fits_i64(v) {
                            Ok(decimal_of(v, exp))
                        } else {
                            Err(CustomError::MathOverflow)
                        }
                    }
                },
            }
        }
    }

    /// Result of `parse_auto_exp`: the exponent is minus the number of fractional digits.
    pub open spec fn spec_parse_auto(s: Seq<char>) -> Result<DecimalFixed, CustomError> {
        match int_part(whole_text(s)) {
            Err(k) => Err(CustomError::ParseIntError(k)),
            Ok((neg, w)) => {
                let f = frac_text_of(s);
                if !all_digits(f) {
                    Err(CustomError::ParseIntError(IntErrorKindClone::InvalidDigit))
                } else {
                    let v = signed(neg, (w * pow10(f.len()) + digits_value(f)) as int);
                    if f.len() <= 128 && fits_i64(v) {
                        Ok(decimal_of(v, -(f.len() as int)))
                    } else {
                        Err(CustomError::MathOverflow)
                    }
                }
            },
        }
    }

    /// The text of a decimal: zero is "0"; a positive exponent appends that many zeros;
    /// a negative one puts the fraction after a '.', without trailing zeros, and no '.'
    /// at all when the fraction is zero.
    pub open spec fn spec_format(d: DecimalFixed) -> Seq<char> {
        if d.value == 0 {
            seq!['0']
        } else if d.exponent >= 0 {
            sign_text(d.value < 0) + nat_digits(abs(d.value as int) as nat) + Seq::new(
                d.exponent as nat,
                |i: int| '0',
            )
        } else {
            let m = (-d.exponent) as nat;
            let a = abs(d.value as int) as nat;
            let p = pow10(m);
            sign_text(d.value < 0) + nat_digits(a / p) + if a % p == 0 {
                Seq::empty()
            } else {
                seq!['.'] + frac_digits(a % p, m)
            }
        }
    }
}

// ---------------------------------------------------------------------------
// Arithmetic lemmas

pub proof fn lemma_pow10_positive(n: nat)
    ensures
        pow10(n) >= 1,
    decreases n,
{
    if n > 0 {
        lemma_pow10_positive((n - 1) as nat);
    }
}

pub proof fn lemma_pow10_monotonic(a: nat, b: nat)
    requires
        a <= b,
    ensures
        pow10(a) <= pow10(b),
    decreases b - a,
{
    if a < b {
        lemma_pow10_monotonic(a, (b - 1) as nat);
        lemma_pow10_positive((b - 1) as nat);
    }
}

pub proof fn lemma_pow10_add(a: nat, b: nat)
    ensures
        pow10(a + b) == pow10(a) * pow10(b),
    decreases b,
{
    if b > 0 {
        lemma_pow10_add(a, (b - 1) as nat);
        let pa = pow10(a) as int;
        let pb = pow10((b - 1) as nat) as int;
        assert((a + b - 1) as nat == a + (b - 1) as nat);
        assert(pow10(a + (b - 1) as nat) == pa * pb);
        assert(pow10(a + b) == 10 * pow10((a + b - 1) as nat));
        assert(pow10(b) == 10 * pb);
        assert(pa * (10 * pb) == 10 * (pa * pb)) by (nonlinear_arith);
        assert(pow10(a + b) == pa * pow10(b));
    } else {
        assert(pow10(0) == 1);
        assert(a + b == a);
        assert(pow10(a) * 1 == pow10(a));
    }
}

/// Multiplying by a power of ten never shrinks the magnitude.
proof fn lemma_abs_scale_grows(x: int, i: nat, k: nat)
    requires
        i <= k,
    ensures
        abs(x * pow10(i)) <= abs(x * pow10(k)),
{
    lemma_pow10_monotonic(i, k);
    lemma_pow10_positive(i);
    if x >= 0 {
        lemma_mul_inequality(pow10(i) as int, pow10(k) as int, x);
        lemma_mul_is_commutative(x, pow10(i) as int);
        lemma_mul_is_commutative(x, pow10(k) as int);
        lemma_mul_nonnegative(x, pow10(i) as int);
    } else {
        lemma_mul_inequality(pow10(i) as int, pow10(k) as int, -x);
        lemma_mul_is_commutative(-x, pow10(i) as int);
        lemma_mul_is_commutative(-x, pow10(k) as int);
        lemma_mul_unary_negation(x, pow10(i) as int);
        lemma_mul_unary_negation(x, pow10(k) as int);
        lemma_mul_nonnegative(-x, pow10(i) as int);
    }
}

proof fn lemma_scale_step(x: int, i: nat)
    ensures
        x * pow10(i + 1) == (x * pow10(i)) * 10,
{
    assert(pow10(i + 1) == 10 * pow10(i));
    lemma_mul_is_associative(x, pow10(i) as int, 10);
    lemma_mul_is_commutative(pow10(i) as int, 10);
}

/// Truncating division of a magnitude below the divisor gives zero.
proof fn lemma_trunc_div_small(a: int, b: int)
    requires
        abs(a) < abs(b),
    ensures
        trunc_div(a, b) == 0,
{
    lemma_basic_div(abs(a), abs(b));
}

proof fn lemma_abs_le_quotient(a: int, b: int)
    requires
        b != 0,
    ensures
        abs(trunc_div(a, b)) <= abs(a),
{
    lemma_div_is_ordered_by_denominator(abs(a), 1, abs(b));
    assert(abs(a) / 1 == abs(a));
    lemma_div_pos_is_pos(abs(a), abs(b));
}


/// The product of two `i64` values stays well inside `i128`.
proof fn lemma_i64_product_bound(a: int, b: int)
    requires
        fits_i64(a),
        fits_i64(b),
    ensures
        abs(a * b) == abs(a) * abs(b),
        abs(a * b) <= 0x4000_0000_0000_0000_0000_0000_0000_0000,
{
    let x = abs(a);
    let y = abs(b);
    assert(x * y <= 0x8000_0000_0000_0000 * 0x8000_0000_0000_0000) by (nonlinear_arith)
        requires
            0 <= x <= 0x8000_0000_0000_0000,
            0 <= y <= 0x8000_0000_0000_0000,
    ;
    assert(abs(a * b) == x * y) by (nonlinear_arith)
        requires
            x == abs(a),
            y == abs(b),
    ;
}

/// A quotient of something beyond `i128` by an `i64` divisor cannot fit an `i64`.
proof fn lemma_huge_quotient(n: int, d: int)
    requires
        abs(n) > i128::MAX,
        d != 0,
        fits_i64(d),
    ensures
        !fits_i64(trunc_div(n, d)),
{
    let big: int = 0x1_0000_0000_0000_0000;
    let ad = abs(d);
    assert(big * ad <= abs(n)) by (nonlinear_arith)
        requires
            1 <= ad <= 0x8000_0000_0000_0000,
            abs(n) > i128::MAX,
            big == 0x1_0000_0000_0000_0000,
    ;
    lemma_div_is_ordered(big * ad, abs(n), ad);
    lemma_div_by_multiple(big, ad);
}


/// A prefix of a digit run never denotes more than the whole run.
proof fn lemma_digits_prefix(t: Seq<char>, k: int)
    requires
        0 <= k <= t.len(),
    ensures
        digits_value(t.take(k)) <= digits_value(t),
    decreases t.len(),
{
    if k == t.len() {
        assert(t.take(k) =~= t);
    } else {
        assert(t.drop_last().take(k) =~= t.take(k));
        lemma_digits_prefix(t.drop_last(), k);
    }
}

// ---------------------------------------------------------------------------
// Executable helpers

/// `10^k`, when it is at most `bound`.
fn pow10_upto(k: u32, bound: u128) -> (r: Option<u128>)
    ensures
        r matches Some(p) ==> p == pow10(k as nat) && p <= bound && p >= 1,
        r is None ==> pow10(k as nat) > bound,
{
    let mut p: u128 = 1;
    let mut i: u32 = 0;
    if bound < 1 {
        proof {
            lemma_pow10_positive(k as nat);
        }
        return None;
    }
    while i < k
        invariant
            i <= k,
            p == pow10(i as nat),
            p >= 1,
            p <= bound,
        decreases k - i,
    {
        if p > bound / 10 {
            proof {
                assert(p * 10 > bound) by (nonlinear_arith)
                    requires
                        p > bound / 10,
                ;
                assert(pow10((i + 1) as nat) == 10 * pow10(i as nat));
                lemma_pow10_monotonic((i + 1) as nat, k as nat);
            }
            return None;
        }
        proof {
            assert(p * 10 <= bound) by (nonlinear_arith)
                requires
                    p <= bound / 10,
            ;
        }
        p = p * 10;
        i = i + 1;
    }
    Some(p)
}

/// `|x|` as an unsigned number.
fn magnitude(x: i128) -> (r: u128)
    ensures
        r == abs(x as int),
{
    if x < 0 {
        if x == i128::MIN {
            (i128::MAX as u128) + 1
        } else {
            (-x) as u128
        }
    } else {
        x as u128
    }
}

/// Division rounding toward zero, for quotients that fit.
fn div_toward_zero(a: i128, b: i128) -> (r: i128)
    requires
        b != 0,
        abs(a as int) <= i128::MAX,
    ensures
        r == trunc_div(a as int, b as int),
{
    let ua = magnitude(a);
    let ub = magnitude(b);
    let q = ua / ub;
    proof {
        lemma_abs_le_quotient(a as int, b as int);
    }
    if (a < 0) != (b < 0) {
        -(q as i128)
    } else {
        q as i128
    }
}

/// `x * 10^k` as an `i64`, or `None` when that overflows.
fn scale_to_i64(x: i128, k: u32) -> (r: Option<i64>)
    ensures
        r matches Some(v) ==> v == x * pow10(k as nat),
        r is None ==> !fits_i64(x * pow10(k as nat)),
{
    let mut acc: i128 = x;
    let mut i: u32 = 0;
    assert(pow10(0) == 1);
    assert(x * pow10(0) == x);
    while i < k
        invariant
            i <= k,
            acc == x * pow10(i as nat),
        decreases k - i,
    {
        if acc < i64::MIN as i128 || acc > i64::MAX as i128 {
            proof {
                lemma_scale_step(x as int, i as nat);
                lemma_abs_scale_grows(x as int, (i + 1) as nat, k as nat);
            }
            return None;
        }
        proof {
            lemma_scale_step(x as int, i as nat);
        }
        acc = acc * 10;
        i = i + 1;
    }
    if acc < i64::MIN as i128 || acc > i64::MAX as i128 {
        None
    } else {
        Some(acc as i64)
    }
}

/// `x * 10^k` as an `i128`, or `None` when its magnitude exceeds `i128::MAX`.
fn scale_to_i128(x: i64, k: u32) -> (r: Option<i128>)
    ensures
        r matches Some(v) ==> v == x * pow10(k as nat) && abs(v as int) <= i128::MAX,
        r is None ==> abs(x * pow10(k as nat)) > i128::MAX,
{
    let mut acc: i128 = x as i128;
    let mut i: u32 = 0;
    assert(pow10(0) == 1);
    assert(x * pow10(0) == x);
    while i < k
        invariant
            i <= k,
            acc == x * pow10(i as nat),
            abs(acc as int) <= i128::MAX,
        decreases k - i,
    {
        if acc < -(i128::MAX / 10) || acc > i128::MAX / 10 {
            proof {
                lemma_scale_step(x as int, i as nat);
                lemma_abs_scale_grows(x as int, (i + 1) as nat, k as nat);
            }
            return None;
        }
        proof {
            lemma_scale_step(x as int, i as nat);
        }
        acc = acc * 10;
        i = i + 1;
    }
    Some(acc)
}

fn narrow_i64(v: i128) -> (r: Result<i64, CustomError>)
    ensures
        fits_i64(v as int) ==> r == Ok::<i64, CustomError>(v as i64),
        !fits_i64(v as int) ==> r == Err::<i64, CustomError>(CustomError::MathOverflow),
{
    if v < i64::MIN as i128 || v > i64::MAX as i128 {
        Err(CustomError::MathOverflow)
    } else {
        Ok(v as i64)
    }
}


/// `x * 10^k` when it is at most `cap`.
fn scale_capped(x: u128, k: u32, cap: u128) -> (r: Option<u128>)
    requires
        cap <= u64::MAX,
    ensures
        r matches Some(v) ==> v == x * pow10(k as nat) && v <= cap,
        r is None ==> x * pow10(k as nat) > cap,
{
    let mut acc: u128 = x;
    let mut i: u32 = 0;
    assert(pow10(0) == 1);
    assert(x * pow10(0) == x);
    while i < k
        invariant
            i <= k,
            acc == x * pow10(i as nat),
            cap <= u64::MAX,
        decreases k - i,
    {
        if acc > cap {
            proof {
                lemma_abs_scale_grows(x as int, i as nat, k as nat);
                lemma_pow10_positive(k as nat);
                lemma_pow10_positive(i as nat);
            }
            return None;
        }
        proof {
            lemma_scale_step(x as int, i as nat);
        }
        acc = acc * 10;
        i = i + 1;
    }
    if acc > cap {
        None
    } else {
        Some(acc)
    }
}

/// Relies on `String::push`: the character is appended at the end.
#[verifier::external_body]
fn push_char(out: &mut String, c: char)
    ensures
        final(out)@ == old(out)@.push(c),
{
    out.push(c);
}

fn digit_of(d: u128) -> (r: char)
    requires
        d < 10,
    ensures
        r == digit_char(d as nat),
{
    ((d as u8) + 48u8) as char
}

/// Index of the first '.' in `s`, or its length.
fn find_dot(s: &str, len: usize) -> (r: usize)
    requires
        len == s@.len(),
    ensures
        r == dot_from(s@, 0),
        r <= len,
{
    let mut i: usize = 0;
    while i < len
        invariant
            i <= len,
            len == s@.len(),
            dot_from(s@, 0) == dot_from(s@, i as int),
        decreases len - i,
    {
        if s.get_char(i) == '.' {
            return i;
        }
        i = i + 1;
    }
    i
}

pub(crate) fn all_digits_in(s: &str, from: usize, to: usize) -> (r: bool)
    requires
        from <= to <= s@.len(),
    ensures
        r == all_digits(s@.subrange(from as int, to as int)),
{
    let mut i: usize = from;
    while i < to
        invariant
            from <= i <= to,
            to <= s@.len(),
            forall|j: int| from <= j < i ==> is_digit(#[trigger] s@[j]),
        decreases to - i,
    {
        let c = s.get_char(i);
        if !('0' <= c && c <= '9') {
            assert(!is_digit(s@.subrange(from as int, to as int)[i - from]));
            return false;
        }
        i = i + 1;
    }
    assert forall|j: int| 0 <= j < to - from implies is_digit(
        #[trigger] s@.subrange(from as int, to as int)[j],
    ) by {
        assert(is_digit(s@[from + j]));
    }
    true
}

/// The value of the digits `s[from..to]`, when it is at most `cap`.
pub(crate) fn read_digits(s: &str, from: usize, to: usize, cap: u128) -> (r: Option<u128>)
    requires
        from <= to <= s@.len(),
        all_digits(s@.subrange(from as int, to as int)),
        cap <= u64::MAX,
    ensures
        r matches Some(v) ==> v == digits_value(s@.subrange(from as int, to as int)) && v <= cap,
        r is None ==> digits_value(s@.subrange(from as int, to as int)) > cap,
{
    let ghost whole = s@.subrange(from as int, to as int);
    let mut acc: u128 = 0;
    let mut i: usize = from;
    assert(s@.subrange(from as int, from as int) =~= Seq::<char>::empty());
    while i < to
        invariant
            from <= i <= to,
            to <= s@.len(),
            whole == s@.subrange(from as int, to as int),
            all_digits(whole),
            acc == digits_value(s@.subrange(from as int, i as int)),
            cap <= u64::MAX,
        decreases to - i,
    {
        assert(whole.take(i - from) =~= s@.subrange(from as int, i as int));
        if acc > cap {
            proof {
                lemma_digits_prefix(whole, i - from);
            }
            return None;
        }
        let c = s.get_char(i);
        assert(is_digit(whole[i - from]));
        let d = (c as u32 - 48u32) as u128;
        assert(s@.subrange(from as int, i + 1).drop_last() =~= s@.subrange(from as int, i as int));
        acc = acc * 10 + d;
        i = i + 1;
    }
    if acc > cap {
        None
    } else {
        Some(acc)
    }
}

/// Reads the optionally signed integer `s[..end]`.
fn parse_int_part(s: &str, end: usize) -> (r: Result<(bool, u128), IntErrorKindClone>)
    requires
        end <= s@.len(),
    ensures
        r matches Ok((neg, w)) ==> int_part(s@.take(end as int)) == Ok::<
            (bool, nat),
            IntErrorKindClone,
        >((neg, w as nat)) && w <= 0x8000_0000_0000_0000,
        r matches Err(k) ==> int_part(s@.take(end as int)) == Err::<(bool, nat), IntErrorKindClone>(
            k,
        ),
{
    let ghost w = s@.take(end as int);
    if end == 0 {
        return Err(IntErrorKindClone::Empty);
    }
    let c0 = s.get_char(0);
    let neg = c0 == '-';
    let start: usize = if c0 == '-' || c0 == '+' {
        1
    } else {
        0
    };
    proof {
        if start == 1 {
            assert(w.drop_first() =~= s@.subrange(1, end as int));
        } else {
            assert(w =~= s@.subrange(0, end as int));
        }
    }
    if start == end {
        return Err(IntErrorKindClone::InvalidDigit);
    }
    if !all_digits_in(s, start, end) {
        return Err(IntErrorKindClone::InvalidDigit);
    }
    let cap: u128 = if neg {
        0x8000_0000_0000_0000
    } else {
        0x7fff_ffff_ffff_ffff
    };
    match read_digits(s, start, end, cap) {
        Some(v) => Ok((neg, v)),
        None => {
            if neg {
                Err(IntErrorKindClone::NegOverflow)
            } else {
                Err(IntErrorKindClone::PosOverflow)
            }
        },
    }
}

fn push_nat_digits(out: &mut String, n: u128)
    ensures
        final(out)@ == old(out)@ + nat_digits(n as nat),
    decreases n,
{
    let ghost start = out@;
    if n >= 10 {
        push_nat_digits(out, n / 10);
    }
    push_char(out, digit_of(n % 10));
    proof {
        if n >= 10 {
            assert(final(out)@ =~= start + nat_digits(n as nat));
        } else {
            assert(final(out)@ =~= start + nat_digits(n as nat));
        }
    }
}

fn push_padded(out: &mut String, n: u128, w: u32)
    ensures
        final(out)@ == old(out)@ + padded_digits(n as nat, w as nat),
    decreases w,
{
    let ghost start = out@;
    if w == 0 {
        assert(start + padded_digits(n as nat, 0) =~= start);
        return;
    }
    push_padded(out, n / 10, w - 1);
    push_char(out, digit_of(n % 10));
    assert(final(out)@ =~= start + padded_digits(n as nat, w as nat));
}

fn push_frac(out: &mut String, f: u128, w: u32)
    ensures
        final(out)@ == old(out)@ + frac_digits(f as nat, w as nat),
    decreases w,
{
    if w > 0 && f % 10 == 0 {
        push_frac(out, f / 10, w - 1);
    } else {
        push_padded(out, f, w);
    }
}

// ---------------------------------------------------------------------------
// Operations

impl DecimalFixed {
    /// Expresses the integer `value` at `exponent` (the default exponent when `None`):
    /// scaled up for a negative exponent, truncated toward zero for a positive one.
    pub fn new(value: i64, exponent: Option<i8>) -> (r: Result<DecimalFixed, CustomError>)
        ensures
            r == Self::spec_new(
                value,
                match exponent {
                    Some(e) => e as int,
                    None => DEFAULT_EXPONENT as int,
                },
            ),
    {
        let exponent = match exponent {
            Some(e) => e,
            None => DEFAULT_EXPONENT,
        };
        if exponent == 0 {
            proof {
                assert(abs(value as int) / 1 == abs(value as int));
            }
            Ok(DecimalFixed { value, exponent })
        } else if exponent > 0 {
            match pow10_upto(exponent as u32, i64::MAX as u128) {
                Some(p) => {
                    let q = div_toward_zero(value as i128, p as i128);
                    proof {
                        lemma_abs_le_quotient(value as int, p as int);
                    }
                    Ok(DecimalFixed { value: q as i64, exponent })
                },
                None => {
                    proof {
                        lemma_trunc_div_small(value as int, pow10(exponent as nat) as int);
                    }
                    Ok(DecimalFixed { value: 0, exponent })
                },
            }
        } else {
            match scale_to_i64(value as i128, (-(exponent as i16)) as u32) {
                Some(v) => Ok(DecimalFixed { value: v, exponent }),
                None => Err(CustomError::MathOverflow),
            }
        }
    }

    /// Builds a decimal from an already scaled value.
    pub fn new_prescaled(value: i64, exponent: i8) -> (r: DecimalFixed)
        ensures
            r.value == value,
            r.exponent == exponent,
    {
        DecimalFixed { value, exponent }
    }

    /// Reads `s` at the exponent `exp` (the default exponent when `None`): an optional
    /// sign, digits, and optionally a '.' followed by fractional digits, which are cut
    /// or zero-padded to `-exp` digits. Only negative exponents are supported.
    pub fn parse_static_exp(s: &str, exp: Option<i8>) -> (r: Result<DecimalFixed, CustomError>)
        ensures
            r == Self::spec_parse_static(
                s@,
                match exp {
                    Some(e) => e as int,
                    None => DEFAULT_EXPONENT as int,
                },
            ),
    {
        let exp = match exp {
            Some(e) => e,
            None => DEFAULT_EXPONENT,
        };
        if exp >= 0 {
            return Err(CustomError::Unimplemented);
        }
        let len = s.unicode_len();
        if len == 0 {
            return Err(CustomError::BadInput);
        }
        let dot = find_dot(s, len);
        let (neg, w) = match parse_int_part(s, dot) {
            Ok(p) => p,
            Err(k) => {
                return Err(CustomError::ParseIntError(k));
            },
        };
        let m = (-(exp as i16)) as u32;
        let cap: u128 = if neg {
            0x8000_0000_0000_0000
        } else {
            0x7fff_ffff_ffff_ffff
        };
        let base = match scale_capped(w, m, cap) {
            Some(b) => b,
            None => {
                return Err(CustomError::MathOverflow);
            },
        };
        let fstart: usize = if dot < len {
            dot + 1
        } else {
            len
        };
        let ghost f = frac_text_of(s@);
        assert(f =~= s@.subrange(fstart as int, len as int));
        if !all_digits_in(s, fstart, len) {
            return Err(CustomError::ParseIntError(IntErrorKindClone::InvalidDigit));
        }
        let flen = len - fstart;
        let fval: u128 = if flen >= m as usize {
            assert(f.take(m as int) =~= s@.subrange(fstart as int, fstart + m));
            assert(s@.subrange(fstart as int, fstart + m) =~= f.take(m as int));
            assert(all_digits(s@.subrange(fstart as int, fstart + m))) by {
                assert forall|j: int| 0 <= j < m implies is_digit(
                    #[trigger] s@.subrange(fstart as int, fstart + m)[j],
                ) by {
                    assert(is_digit(f[j]));
                }
            }
            match read_digits(s, fstart, fstart + m as usize, cap) {
                Some(v) => v,
                None => {
                    return Err(CustomError::MathOverflow);
                },
            }
        } else {
            let raw = match read_digits(s, fstart, len, cap) {
                Some(v) => v,
                None => {
                    proof {
                        lemma_pow10_positive((m - flen) as nat);
                        assert(digits_value(f) * pow10((m - flen) as nat) >= digits_value(f))
                            by (nonlinear_arith)
                            requires
                                pow10((m - flen) as nat) >= 1,
                        ;
                    }
                    return Err(CustomError::MathOverflow);
                },
            };
            match scale_capped(raw, m - flen as u32, cap) {
                Some(v) => v,
                None => {
                    return Err(CustomError::MathOverflow);
                },
            }
        };
        let mag = base + fval;
        if mag > cap {
            return Err(CustomError::MathOverflow);
        }
        let value: i64 = if neg {
            (-(mag as i128)) as i64
        } else {
            mag as i64
        };
        Ok(DecimalFixed { value, exponent: exp })
    }

    /// Reads `s` with as many fractional digits as it has: the exponent is minus
    /// their number.
    pub fn parse_auto_exp(s: &str) -> (r: Result<DecimalFixed, CustomError>)
        ensures
            r == Self::spec_parse_auto(s@),
    {
        let len = s.unicode_len();
        let dot = find_dot(s, len);
        let (neg, w) = match parse_int_part(s, dot) {
            Ok(p) => p,
            Err(k) => {
                return Err(CustomError::ParseIntError(k));
            },
        };
        let fstart: usize = if dot < len {
            dot + 1
        } else {
            len
        };
        let ghost f = frac_text_of(s@);
        assert(f =~= s@.subrange(fstart as int, len as int));
        if !all_digits_in(s, fstart, len) {
            return Err(CustomError::ParseIntError(IntErrorKindClone::InvalidDigit));
        }
        let flen = len - fstart;
        if flen > 128 {
            return Err(CustomError::MathOverflow);
        }
        let cap: u128 = if neg {
            0x8000_0000_0000_0000
        } else {
            0x7fff_ffff_ffff_ffff
        };
        let base = match scale_capped(w, flen as u32, cap) {
            Some(b) => b,
            None => {
                return Err(CustomError::MathOverflow);
            },
        };
        let fval = match read_digits(s, fstart, len, cap) {
            Some(v) => v,
            None => {
                return Err(CustomError::MathOverflow);
            },
        };
        let mag = base + fval;
        if mag > cap {
            return Err(CustomError::MathOverflow);
        }
        let value: i64 = if neg {
            (-(mag as i128)) as i64
        } else {
            mag as i64
        };
        Ok(DecimalFixed { value, exponent: (-(flen as i16)) as i8 })
    }

    /// The decimal as text (see `spec_format`).
    pub fn format(&self) -> (r: String)
        ensures
            r@ == Self::spec_format(*self),
    {
        let mut out = String::new();
        if self.value == 0 {
            push_char(&mut out, '0');
            assert(out@ =~= seq!['0']);
            return out;
        }
        if self.value < 0 {
            push_char(&mut out, '-');
        }
        let ghost sign = out@;
        assert(sign =~= sign_text(self.value < 0));
        let a = magnitude(self.value as i128);
        if self.exponent >= 0 {
            push_nat_digits(&mut out, a);
            let ghost digits = out@;
            let mut i: i8 = 0;
            while i < self.exponent
                invariant
                    0 <= i <= self.exponent,
                    out@ == digits + Seq::new(i as nat, |j: int| '0'),
                decreases self.exponent - i,
            {
                push_char(&mut out, '0');
                assert(out@ =~= digits + Seq::new((i + 1) as nat, |j: int| '0'));
                i = i + 1;
            }
            assert(out@ =~= Self::spec_format(*self));
        } else {
            let m = (-(self.exponent as i16)) as u32;
            let (whole, frac): (u128, u128) = match pow10_upto(m, u128::MAX) {
                Some(p) => (a / p, a % p),
                None => {
                    proof {
                        lemma_basic_div(a as int, pow10(m as nat) as int);
                        lemma_small_mod(a as nat, pow10(m as nat));
                    }
                    (0, a)
                },
            };
            push_nat_digits(&mut out, whole);
            if frac != 0 {
                push_char(&mut out, '.');
                push_frac(&mut out, frac, m);
            }
            assert(out@ =~= Self::spec_format(*self));
        }
        out
    }

    fn priv_add(&self, other: DecimalFixed) -> (r: Result<DecimalFixed, CustomError>)
        ensures
            r == Self::spec_add(*self, other),
    {
        let ea = self.exponent as i16;
        let eb = other.exponent as i16;
        if ea == eb {
            proof {
                assert(pow10(0) == 1);
                assert(self.value * pow10(0) == self.value);
                assert(other.value * pow10(0) == other.value);
            }
            match narrow_i64(self.value as i128 + other.value as i128) {
                Ok(s) => Ok(DecimalFixed { value: s, exponent: self.exponent }),
                Err(e) => Err(e),
            }
        } else if ea > eb {
            let x = match scale_to_i64(self.value as i128, (ea - eb) as u32) {
                Some(x) => x,
                None => {
                    return Err(CustomError::MathOverflow);
                },
            };
            proof {
                assert(pow10(0) == 1);
                assert(other.value * pow10(0) == other.value);
            }
            match narrow_i64(x as i128 + other.value as i128) {
                Ok(s) => Ok(DecimalFixed { value: s, exponent: other.exponent }),
                Err(e) => Err(e),
            }
        } else {
            let y = match scale_to_i64(other.value as i128, (eb - ea) as u32) {
                Some(y) => y,
                None => {
                    return Err(CustomError::MathOverflow);
                },
            };
            proof {
                assert(pow10(0) == 1);
                assert(self.value * pow10(0) == self.value);
            }
            match narrow_i64(self.value as i128 + y as i128) {
                Ok(s) => Ok(DecimalFixed { value: s, exponent: self.exponent }),
                Err(e) => Err(e),
            }
        }
    }

    /// Sum, rescaled to the smaller exponent; fails with `MathOverflow` instead of wrapping.
    pub fn addition(&self, other: DecimalFixed) -> (r: Result<DecimalFixed, CustomError>)
        ensures
            r == Self::spec_add(*self, other),
    {
        self.priv_add(other)
    }
    /// Difference, rescaled to the smaller exponent; fails with `MathOverflow` only
    /// when a rescaled operand or the difference does not fit.
    pub fn subtract(&self, other: DecimalFixed) -> (r: Result<DecimalFixed, CustomError>)
        ensures
            r == Self::spec_subtract(*self, other),
    {
        let ea = self.exponent as i16;
        let eb = other.exponent as i16;
        assert(pow10(0) == 1);
        if ea == eb {
            assert(self.value * pow10(0) == self.value);
            assert(other.value * pow10(0) == other.value);
            match narrow_i64(self.value as i128 - other.value as i128) {
                Ok(v) => Ok(DecimalFixed { value: v, exponent: self.exponent }),
                Err(e) => Err(e),
            }
        } else if ea > eb {
            let x = match scale_to_i64(self.value as i128, (ea - eb) as u32) {
                Some(x) => x,
                None => {
                    return Err(CustomError::MathOverflow);
                },
            };
            assert(other.value * pow10(0) == other.value);
            match narrow_i64(x as i128 - other.value as i128) {
                Ok(v) => Ok(DecimalFixed { value: v, exponent: other.exponent }),
                Err(e) => Err(e),
            }
        } else {
            let y = match scale_to_i64(other.value as i128, (eb - ea) as u32) {
                Some(y) => y,
                None => {
                    return Err(CustomError::MathOverflow);
                },
            };
            assert(self.value * pow10(0) == self.value);
            match narrow_i64(self.value as i128 - y as i128) {
                Ok(v) => Ok(DecimalFixed { value: v, exponent: self.exponent }),
                Err(e) => Err(e),
            }
        }
    }

    /// The negation; zero stays zero and `i64::MIN` fails instead of wrapping.
    pub fn negate(&self) -> (r: Result<DecimalFixed, CustomError>)
        ensures
            r == Self::spec_negate(*self),
            self.value == 0 ==> r == Ok::<DecimalFixed, CustomError>(*self),
    {
        if self.is_zero() {
            return Ok(*self);
        }
        if self.value == i64::MIN {
            return Err(CustomError::MathOverflow);
        }
        Ok(DecimalFixed { value: -self.value, exponent: self.exponent })
    }

    /// Negates in place; on failure the number is left as it was.
    pub fn negate_in_place(&mut self) -> (r: Result<(), CustomError>)
        ensures
            Self::spec_negate(*old(self)) matches Ok(n) ==> r is Ok && *final(self) == n,
            Self::spec_negate(*old(self)) matches Err(e) ==> r == Err::<(), CustomError>(e)
                && *final(self) == *old(self),
    {
        if self.is_zero() {
            return Ok(());
        }
        if self.value == i64::MIN {
            return Err(CustomError::MathOverflow);
        }
        self.value = -self.value;
        Ok(())
    }

    /// Product at the shared exponent; operands with different exponents are refused.
    pub fn multiply(&self, other: DecimalFixed) -> (r: Result<DecimalFixed, CustomError>)
        ensures
            r == Self::spec_multiply(*self, other),
            self.exponent != other.exponent ==> r == Err::<DecimalFixed, CustomError>(
                CustomError::Unimplemented,
            ),
    {
        self.priv_mul(other, true)
    }

    /// Product with the exponents added, without rescaling.
    pub fn multiply_no_keep_exp(&self, other: DecimalFixed) -> (r: Result<DecimalFixed, CustomError>)
        ensures
            r == Self::spec_multiply_no_keep_exp(*self, other),
    {
        self.priv_mul(other, false)
    }

    /// Quotient at the shared exponent; a zero divisor is `BadInput`.
    pub fn divide(&self, other: DecimalFixed) -> (r: Result<DecimalFixed, CustomError>)
        ensures
            r == Self::spec_divide(*self, other),
            other.value == 0 ==> r == Err::<DecimalFixed, CustomError>(CustomError::BadInput),
    {
        self.priv_div(other, true)
    }

    /// Quotient with the exponents subtracted, without rescaling; a zero divisor is `BadInput`.
    pub fn divide_no_keep_exp(&self, other: DecimalFixed) -> (r: Result<DecimalFixed, CustomError>)
        ensures
            r == Self::spec_divide_no_keep_exp(*self, other),
            other.value == 0 ==> r == Err::<DecimalFixed, CustomError>(CustomError::BadInput),
    {
        self.priv_div(other, false)
    }

    pub fn is_negative(&self) -> (r: bool)
        ensures
            r == (self.value < 0),
    {
        self.value < 0
    }

    pub fn is_zero(&self) -> (r: bool)
        ensures
            r == (self.value == 0),
    {
        self.value == 0
    }

    fn priv_mul(&self, other: DecimalFixed, keep_exponent: bool) -> (r: Result<DecimalFixed, CustomError>)
        ensures
            keep_exponent ==> r == Self::spec_multiply(*self, other),
            !keep_exponent ==> r == Self::spec_multiply_no_keep_exp(*self, other),
    {
        proof {
            lemma_i64_product_bound(self.value as int, other.value as int);
        }
        let prod: i128 = self.value as i128 * other.value as i128;
        if !keep_exponent {
            let v = match narrow_i64(prod) {
                Ok(v) => v,
                Err(e) => {
                    return Err(e);
                },
            };
            let e = self.exponent as i16 + other.exponent as i16;
            if e < i8::MIN as i16 || e > i8::MAX as i16 {
                return Err(CustomError::MathOverflow);
            }
            return Ok(DecimalFixed { value: v, exponent: e as i8 });
        }
        if self.exponent != other.exponent {
            return Err(CustomError::Unimplemented);
        }
        if self.exponent >= 0 {
            match scale_to_i64(prod, self.exponent as u32) {
                Some(v) => Ok(DecimalFixed { value: v, exponent: self.exponent }),
                None => Err(CustomError::MathOverflow),
            }
        } else {
            let k = (-(self.exponent as i16)) as u32;
            match pow10_upto(k, i128::MAX as u128) {
                Some(p) => {
                    let q = div_toward_zero(prod, p as i128);
                    match narrow_i64(q) {
                        Ok(v) => Ok(DecimalFixed { value: v, exponent: self.exponent }),
                        Err(e) => Err(e),
                    }
                },
                None => {
                    proof {
                        lemma_trunc_div_small(prod as int, pow10(k as nat) as int);
                    }
                    Ok(DecimalFixed { value: 0, exponent: self.exponent })
                },
            }
        }
    }

    fn priv_div(&self, other: DecimalFixed, keep_exponent: bool) -> (r: Result<DecimalFixed, CustomError>)
        ensures
            keep_exponent ==> r == Self::spec_divide(*self, other),
            !keep_exponent ==> r == Self::spec_divide_no_keep_exp(*self, other),
    {
        if other.value == 0 {
            return Err(CustomError::BadInput);
        }
        if !keep_exponent {
            let q = div_toward_zero(self.value as i128, other.value as i128);
            let v = match narrow_i64(q) {
                Ok(v) => v,
                Err(e) => {
                    return Err(e);
                },
            };
            let e = self.exponent as i16 - other.exponent as i16;
            if e < i8::MIN as i16 || e > i8::MAX as i16 {
                return Err(CustomError::MathOverflow);
            }
            return Ok(DecimalFixed { value: v, exponent: e as i8 });
        }
        if self.exponent != other.exponent {
            return Err(CustomError::Unimplemented);
        }
        if self.exponent >= 0 {
            let scaled: i128 = match pow10_upto(self.exponent as u32, i128::MAX as u128) {
                Some(p) => {
                    proof {
                        lemma_abs_le_quotient(self.value as int, p as int);
                    }
                    div_toward_zero(self.value as i128, p as i128)
                },
                None => {
                    proof {
                        lemma_trunc_div_small(self.value as int, pow10(self.exponent as nat) as int);
                    }
                    0
                },
            };
            let q = div_toward_zero(scaled, other.value as i128);
            match narrow_i64(q) {
                Ok(v) => Ok(DecimalFixed { value: v, exponent: self.exponent }),
                Err(e) => Err(e),
            }
        } else {
            let k = (-(self.exponent as i16)) as u32;
            match scale_to_i128(self.value, k) {
                Some(scaled) => {
                    let q = div_toward_zero(scaled, other.value as i128);
                    match narrow_i64(q) {
                        Ok(v) => Ok(DecimalFixed { value: v, exponent: self.exponent }),
                        Err(e) => Err(e),
                    }
                },
                None => {
                    proof {
                        lemma_huge_quotient(self.value * pow10(k as nat), other.value as int);
                    }
                    Err(CustomError::MathOverflow)
                },
            }
        }
    }
}

impl core::str::FromStr for DecimalFixed {
    type Err = CustomError;

    /// Reads with as many fractional digits as the text has (see `parse_auto_exp`).
    fn from_str(s: &str) -> (r: Result<DecimalFixed, CustomError>)
        ensures
            r == DecimalFixed::spec_parse_auto(s@),
    {
        DecimalFixed::parse_auto_exp(s)
    }
}

impl Default for DecimalFixed {
    /// Zero at the default exponent.
    fn default() -> (r: Self)
        ensures
            r.value == 0,
            r.exponent == DEFAULT_EXPONENT,
    {
        DecimalFixed { value: 0, exponent: DEFAULT_EXPONENT }
    }
}

// ---------------------------------------------------------------------------
// Laws

/// For two decimals at one exponent, adding `b` and then subtracting `b` gives back
/// `a`, whenever the sum does not overflow.
pub proof fn lemma_add_then_subtract(a: DecimalFixed, b: DecimalFixed)
    requires
        a.exponent == b.exponent,
        DecimalFixed::spec_add(a, b) is Ok,
    ensures
        DecimalFixed::spec_subtract(DecimalFixed::spec_add(a, b)->Ok_0, b) == Ok::<
            DecimalFixed,
            CustomError,
        >(a),
{
    assert(pow10(0) == 1);
    let e = a.exponent as int;
    assert(min_int(e, e) == e);
    assert(a.value * pow10(0) == a.value);
    assert(b.value * pow10(0) == b.value);
    let c = DecimalFixed::spec_add(a, b)->Ok_0;
    assert(c.value == a.value + b.value);
    assert(c.exponent == a.exponent);
    assert(c.value * pow10(0) == c.value);
}

/// A zero divisor is reported as bad input by every division, never as an overflow.
pub proof fn lemma_divide_by_zero(a: DecimalFixed, b: DecimalFixed)
    requires
        b.value == 0,
    ensures
        DecimalFixed::spec_divide(a, b) == Err::<DecimalFixed, CustomError>(CustomError::BadInput),
        DecimalFixed::spec_divide_no_keep_exp(a, b) == Err::<DecimalFixed, CustomError>(
            CustomError::BadInput,
        ),
{
}

/// Multiplying at a kept exponent refuses operands whose exponents differ.
pub proof fn lemma_multiply_needs_equal_exponents(a: DecimalFixed, b: DecimalFixed)
    requires
        a.exponent != b.exponent,
    ensures
        DecimalFixed::spec_multiply(a, b) == Err::<DecimalFixed, CustomError>(
            CustomError::Unimplemented,
        ),
{
}

proof fn lemma_digit_char_value(c: char)
    requires
        is_digit(c),
    ensures
        digit_char(digit_value(c)) == c,
        digit_value(c) < 10,
{
    assert((((c as int - '0' as int) as nat + '0' as nat) as char) == c);
}

proof fn lemma_digits_step(t: Seq<char>)
    requires
        t.len() > 0,
        all_digits(t),
    ensures
        digits_value(t) / 10 == digits_value(t.drop_last()),
        digits_value(t) % 10 == digit_value(t.last()),
        all_digits(t.drop_last()),
{
    assert(is_digit(t[t.len() - 1]));
    lemma_digit_char_value(t.last());
    lemma_fundamental_div_mod_converse(
        digits_value(t) as int,
        10,
        digits_value(t.drop_last()) as int,
        digit_value(t.last()) as int,
    );
    assert forall|i: int| 0 <= i < t.drop_last().len() implies is_digit(
        #[trigger] t.drop_last()[i],
    ) by {
        assert(is_digit(t[i]));
    }
}

proof fn lemma_digits_below_pow(t: Seq<char>)
    requires
        all_digits(t),
    ensures
        digits_value(t) < pow10(t.len()),
    decreases t.len(),
{
    if t.len() > 0 {
        lemma_digits_step(t);
        lemma_digits_below_pow(t.drop_last());
        let a = digits_value(t.drop_last());
        let p = pow10(t.drop_last().len());
        assert(a * 10 + 9 < p * 10) by (nonlinear_arith)
            requires
                a < p,
        ;
        assert(pow10(t.len()) == 10 * p);
    }
}

proof fn lemma_leading_digit_positive(t: Seq<char>)
    requires
        t.len() > 0,
        all_digits(t),
        t[0] != '0',
    ensures
        digits_value(t) >= 1,
    decreases t.len(),
{
    lemma_digits_step(t);
    if t.len() > 1 {
        lemma_leading_digit_positive(t.drop_last());
    } else {
        assert(is_digit(t[0]));
        assert(t.drop_last() =~= Seq::<char>::empty());
    }
}

proof fn lemma_nat_digits_inverse(t: Seq<char>)
    requires
        t.len() > 0,
        all_digits(t),
        t.len() == 1 || t[0] != '0',
    ensures
        nat_digits(digits_value(t)) == t,
    decreases t.len(),
{
    lemma_digits_step(t);
    lemma_digit_char_value(t.last());
    if t.len() == 1 {
        assert(t.drop_last() =~= Seq::<char>::empty());
        assert(digits_value(t) == digit_value(t.last()));
        assert(seq![t.last()] =~= t);
    } else {
        lemma_leading_digit_positive(t.drop_last());
        lemma_nat_digits_inverse(t.drop_last());
        assert(t.drop_last().push(t.last()) =~= t);
    }
}

proof fn lemma_padded_inverse(t: Seq<char>)
    requires
        all_digits(t),
    ensures
        padded_digits(digits_value(t), t.len()) == t,
    decreases t.len(),
{
    if t.len() == 0 {
        assert(padded_digits(0, 0) =~= t);
    } else {
        lemma_digits_step(t);
        lemma_digit_char_value(t.last());
        lemma_padded_inverse(t.drop_last());
        assert(t.drop_last().push(t.last()) =~= t);
    }
}

proof fn lemma_frac_strip(t: Seq<char>, j: nat)
    requires
        t.len() > 0,
        all_digits(t),
        t.last() != '0',
    ensures
        frac_digits(digits_value(t) * pow10(j), t.len() + j) == t,
    decreases j,
{
    let x = digits_value(t) * pow10(j);
    if j == 0 {
        assert(pow10(j) == 1);
        assert(x == digits_value(t)) by (nonlinear_arith)
            requires
                x == digits_value(t) * pow10(j),
                pow10(j) == 1,
        ;
        lemma_digits_step(t);
        assert(is_digit(t[t.len() - 1]));
        assert(digit_value(t.last()) != 0);
        lemma_padded_inverse(t);
        assert(frac_digits(x, t.len()) == padded_digits(x, t.len()));
    } else {
        let y = digits_value(t) * pow10((j - 1) as nat);
        assert(x == y * 10) by {
            lemma_scale_step(digits_value(t) as int, (j - 1) as nat);
        }
        lemma_fundamental_div_mod_converse(x as int, 10, y as int, 0);
        lemma_frac_strip(t, (j - 1) as nat);
        assert((t.len() + j - 1) as nat == t.len() + (j - 1) as nat);
        assert(frac_digits(x, t.len() + j) == frac_digits(x / 10, (t.len() + j - 1) as nat));
    }
}

/// `t` without leading zeros, keeping its last character.
pub open spec fn strip_leading_zeros(t: Seq<char>) -> Seq<char>
    decreases t.len(),
{
    if t.len() > 1 && t[0] == '0' {
        strip_leading_zeros(t.drop_first())
    } else {
        t
    }
}

/// `t` without trailing zeros.
pub open spec fn strip_trailing_zeros(t: Seq<char>) -> Seq<char>
    decreases t.len(),
{
    if t.len() > 0 && t.last() == '0' {
        strip_trailing_zeros(t.drop_last())
    } else {
        t
    }
}

/// The canonical form of a decimal text: no '+', no leading zeros in the whole part,
/// no trailing zeros in the fraction, no '.' without digits after it, and "0" for
/// every zero (which then carries no '-').
pub open spec fn canonical_text(s: Seq<char>) -> Seq<char> {
    let w = whole_text(s);
    let neg = w.len() > 0 && w[0] == '-';
    let digits = if w.len() > 0 && (w[0] == '-' || w[0] == '+') {
        w.drop_first()
    } else {
        w
    };
    let wd = strip_leading_zeros(digits);
    let fd = strip_trailing_zeros(frac_text_of(s));
    if wd == seq!['0'] && fd.len() == 0 {
        seq!['0']
    } else {
        sign_text(neg) + wd + if fd.len() == 0 {
            Seq::empty()
        } else {
            seq!['.'] + fd
        }
    }
}

proof fn lemma_leading_zero_value(u: Seq<char>)
    ensures
        digits_value(seq!['0'] + u) == digits_value(u),
    decreases u.len(),
{
    assert(digit_value('0') == 0);
    let t = seq!['0'] + u;
    if u.len() == 0 {
        assert(t.drop_last() =~= Seq::<char>::empty());
        assert(digits_value(Seq::<char>::empty()) == 0);
        assert(t.last() == '0');
        assert(digits_value(t) == digits_value(t.drop_last()) * 10 + digit_value(t.last()));
    } else {
        assert(t.drop_last() =~= seq!['0'] + u.drop_last());
        assert(t.last() == u.last());
        lemma_leading_zero_value(u.drop_last());
    }
}

proof fn lemma_strip_leading(t: Seq<char>)
    requires
        t.len() > 0,
        all_digits(t),
    ensures
        strip_leading_zeros(t).len() > 0,
        all_digits(strip_leading_zeros(t)),
        digits_value(strip_leading_zeros(t)) == digits_value(t),
        strip_leading_zeros(t).len() == 1 || strip_leading_zeros(t)[0] != '0',
    decreases t.len(),
{
    if t.len() > 1 && t[0] == '0' {
        let u = t.drop_first();
        assert forall|i: int| 0 <= i < u.len() implies is_digit(#[trigger] u[i]) by {
            assert(is_digit(t[i + 1]));
        }
        assert(seq!['0'] + u =~= t);
        lemma_leading_zero_value(u);
        lemma_strip_leading(u);
    }
}

proof fn lemma_strip_trailing(t: Seq<char>)
    requires
        all_digits(t),
    ensures
        all_digits(strip_trailing_zeros(t)),
        strip_trailing_zeros(t).len() <= t.len(),
        strip_trailing_zeros(t).len() > 0 ==> strip_trailing_zeros(t).last() != '0',
        digits_value(t) == digits_value(strip_trailing_zeros(t)) * pow10(
            (t.len() - strip_trailing_zeros(t).len()) as nat,
        ),
    decreases t.len(),
{
    let r = strip_trailing_zeros(t);
    if t.len() > 0 && t.last() == '0' {
        lemma_digits_step(t);
        lemma_digit_char_value('0');
        lemma_strip_trailing(t.drop_last());
        let j = (t.len() - 1 - r.len()) as nat;
        lemma_scale_step(digits_value(r) as int, j);
        assert((t.len() - r.len()) as nat == j + 1);
    } else {
        assert(pow10(0) == 1);
        assert(digits_value(t) * pow10(0) == digits_value(t));
    }
}

/// Formatting what was parsed gives the canonical form of the text (see
/// `canonical_text`), for every text that parses at exponent `exp` and has at most
/// `-exp` fractional digits.
pub proof fn lemma_format_parse_canonical(s: Seq<char>, exp: i8)
    requires
        exp < 0,
        DecimalFixed::spec_parse_static(s, exp as int) is Ok,
        frac_text_of(s).len() <= -exp,
    ensures
        DecimalFixed::spec_format(DecimalFixed::spec_parse_static(s, exp as int)->Ok_0)
            == canonical_text(s),
{
    let m = (-exp) as nat;
    let w = whole_text(s);
    let neg = w.len() > 0 && w[0] == '-';
    let digits = if w.len() > 0 && (w[0] == '-' || w[0] == '+') {
        w.drop_first()
    } else {
        w
    };
    let f = frac_text_of(s);
    let k = f.len();
    assert(int_part(w) is Ok);
    assert(all_digits(f));
    let wv = digits_value(digits);
    assert(int_part(w) == Ok::<(bool, nat), IntErrorKindClone>((neg, wv)));
    let wd = strip_leading_zeros(digits);
    lemma_strip_leading(digits);
    let fd = strip_trailing_zeros(f);
    let kd = fd.len();
    lemma_strip_trailing(f);
    let fv = digits_value(f);
    let fdv = digits_value(fd);
    let fm = frac_value(f, m);
    // The fraction at `m` digits is the stripped fraction shifted.
    assert(fm == fv * pow10((m - k) as nat)) by {
        if k == m {
            assert(f.take(m as int) =~= f);
            assert(pow10((m - k) as nat) == 1);
            assert(fv * pow10((m - k) as nat) == fv) by (nonlinear_arith)
                requires
                    pow10((m - k) as nat) == 1,
            ;
        }
    }
    lemma_pow10_add((k - kd) as nat, (m - k) as nat);
    assert(((k - kd) as nat + (m - k) as nat) as nat == (m - kd) as nat);
    assert(fm == fdv * pow10((m - kd) as nat)) by {
        lemma_mul_is_associative(
            fdv as int,
            pow10((k - kd) as nat) as int,
            pow10((m - k) as nat) as int,
        );
    }
    lemma_digits_below_pow(fd);
    lemma_pow10_add(kd, (m - kd) as nat);
    lemma_pow10_positive((m - kd) as nat);
    assert(fm < pow10(m)) by {
        assert(fdv * pow10((m - kd) as nat) < pow10(kd) * pow10((m - kd) as nat))
            by (nonlinear_arith)
            requires
                fdv < pow10(kd),
                pow10((m - kd) as nat) >= 1,
        ;
    }
    assert(kd > 0 ==> fm > 0) by {
        if kd > 0 {
            lemma_digits_step(fd);
            assert(is_digit(fd[fd.len() - 1]));
            assert(fdv >= 1);
            assert(fdv * pow10((m - kd) as nat) >= 1) by (nonlinear_arith)
                requires
                    fdv >= 1,
                    pow10((m - kd) as nat) >= 1,
            ;
        }
    }
    assert(kd == 0 ==> fm == 0) by {
        if kd == 0 {
            assert(fd =~= Seq::<char>::empty());
            assert(fdv == 0);
            assert(0 * pow10((m - kd) as nat) == 0);
        }
    }
    let mag = wv * pow10(m) + fm;
    let d = DecimalFixed::spec_parse_static(s, exp as int)->Ok_0;
    assert(d.value == signed(neg, mag as int) && d.exponent == exp);
    lemma_fundamental_div_mod_converse(mag as int, pow10(m) as int, wv as int, fm as int);
    lemma_nat_digits_inverse(wd);
    // Zero.
    if wv == 0 && kd == 0 {
        if wd.len() > 1 {
            lemma_leading_digit_positive(wd);
        }
        assert(is_digit(wd[0]));
        lemma_digit_char_value(wd[0]);
        assert(wd =~= seq!['0']);
        assert(DecimalFixed::spec_format(d) =~= canonical_text(s));
        return;
    }
    assert(!(wd == seq!['0'] && kd == 0)) by {
        if wd == seq!['0'] {
            assert(digit_value('0') == 0);
            assert(wd.drop_last() =~= Seq::<char>::empty());
            assert(digits_value(Seq::<char>::empty()) == 0);
            assert(wd.last() == '0');
            assert(digits_value(wd) == digits_value(wd.drop_last()) * 10 + digit_value(wd.last()));
            assert(digits_value(wd) == 0);
        }
    }
    assert(mag > 0) by {
        if wv > 0 {
            lemma_pow10_positive(m);
            assert(wv * pow10(m) >= 1) by (nonlinear_arith)
                requires
                    wv >= 1,
                    pow10(m) >= 1,
            ;
        }
    }
    assert(abs(d.value as int) == mag);
    assert((d.value < 0) == neg);
    if kd > 0 {
        lemma_frac_strip(fd, (m - kd) as nat);
        assert(kd + (m - kd) as nat == m);
    }
    assert(DecimalFixed::spec_format(d) =~= canonical_text(s));
}


} // verus!
