//! Rendering values as text.  Integer-to-decimal conversion and the
//! `Printable` trait append their output to a text buffer; emitting the
//! accumulated bytes to a file descriptor is left to the caller outside
//! this library.

use crate::allocator::DummyAllocator;
use crate::buffer::{appended, lemma_appended_trans};
use vstd::arithmetic::div_mod::{
    lemma_breakdown, lemma_div_denominator, lemma_fundamental_div_mod,
    lemma_fundamental_div_mod_converse, lemma_mod_bound,
};
use vstd::prelude::*;
use vstd::string::StringSliceAdditionalSpecFns;

verus! {

/// The decimal digits of `n` as ASCII bytes, most significant first.
pub open spec fn dec_digits(n: int) -> Seq<u8>
    decreases n,
{
    if n < 10 {
        seq![(n + 48) as u8]
    } else {
        dec_digits(n / 10) + seq![(n % 10 + 48) as u8]
    }
}

/// How many decimal digits `n` has (one for zero).
pub open spec fn ndigits(n: int) -> int
    decreases n,
{
    if n < 10 {
        1
    } else {
        1 + ndigits(n / 10)
    }
}

/// `b` to the power `e`.
pub open spec fn power_of(b: int, e: nat) -> int
    decreases e,
{
    if e == 0 {
        1
    } else {
        b * power_of(b, (e - 1) as nat)
    }
}

/// Ten to the power `k`.
pub open spec fn pow10(k: nat) -> int {
    power_of(10, k)
}

/// A power of a nonnegative base is nonnegative; of a positive base,
/// positive.
pub proof fn lemma_power_of_pos(b: int, e: nat)
    requires
        0 <= b,
    ensures
        0 <= power_of(b, e),
        1 <= b ==> 1 <= power_of(b, e),
    decreases e,
{
    if e > 0 {
        lemma_power_of_pos(b, (e - 1) as nat);
        let p = power_of(b, (e - 1) as nat);
        assert(b * p >= 0) by (nonlinear_arith)
            requires
                b >= 0,
                p >= 0,
        ;
        if b >= 1 {
            assert(b * p >= 1) by (nonlinear_arith)
                requires
                    b >= 1,
                    p >= 1,
            ;
        }
    }
}

/// Powers of a positive base grow with the exponent.
pub proof fn lemma_power_of_monotone(b: int, e1: nat, e2: nat)
    requires
        1 <= b,
        e1 <= e2,
    ensures
        power_of(b, e1) <= power_of(b, e2),
    decreases e2,
{
    lemma_power_of_pos(b, e1);
    if e1 < e2 {
        lemma_power_of_monotone(b, e1, (e2 - 1) as nat);
        lemma_power_of_pos(b, (e2 - 1) as nat);
        let p = power_of(b, (e2 - 1) as nat);
        assert(b * p >= p) by (nonlinear_arith)
            requires
                b >= 1,
                p >= 0,
        ;
    }
}

/// A number's decimal text has exactly `ndigits` bytes.
pub proof fn lemma_dec_len(n: int)
    ensures
        dec_digits(n).len() == ndigits(n),
    decreases n,
{
    if 10 <= n {
        lemma_dec_len(n / 10);
    }
}

/// Every number has at least one digit.
pub proof fn lemma_ndigits_pos(n: int)
    ensures
        1 <= ndigits(n),
    decreases n,
{
    if 10 <= n {
        lemma_ndigits_pos(n / 10);
    }
}

/// A positive number with `k` digits lies between ten to the `k - 1`
/// (inclusive) and ten to the `k` (exclusive).
pub proof fn lemma_ndigits_bounds(n: int)
    requires
        1 <= n,
    ensures
        pow10((ndigits(n) - 1) as nat) <= n,
        n < pow10(ndigits(n) as nat),
    decreases n,
{
    lemma_ndigits_pos(n);
    if n < 10 {
        assert(pow10(0) == 1);
        assert(pow10(1) == 10 * pow10(0));
    } else {
        let q = n / 10;
        let k = ndigits(n);
        lemma_fundamental_div_mod(n, 10);
        assert(0 <= n % 10 < 10);
        lemma_ndigits_bounds(q);
        assert(ndigits(q) == k - 1);
        assert(pow10((k - 1) as nat) == 10 * pow10((k - 2) as nat));
        assert(pow10(k as nat) == 10 * pow10((k - 1) as nat));
    }
}

/// Ten to the twentieth power, written out.
pub proof fn lemma_pow10_value()
    ensures
        pow10(20) == 100000000000000000000,
{
    assert(pow10(20) == 100000000000000000000) by {
        reveal_with_fuel(power_of, 21);
    }
}

/// A value that fits in 64 bits has at most twenty digits.
pub proof fn lemma_ndigits_le_20(n: int)
    requires
        0 <= n <= u64::MAX,
    ensures
        ndigits(n) <= 20,
{
    lemma_ndigits_pos(n);
    if 1 <= n && ndigits(n) > 20 {
        lemma_ndigits_bounds(n);
        lemma_pow10_value();
        lemma_power_of_monotone(10, 20, (ndigits(n) - 1) as nat);
        assert(false);
    }
}

fn count_digits_u64(number: u64) -> (r: u32)
    ensures
        r as int == ndigits(number as int),
{
    if number == 0 {
        return 1;
    }
    proof {
        lemma_ndigits_le_20(number as int);
    }
    let mut n = number;
    let mut digit_count: u32 = 0;
    while n > 0
        invariant
            ndigits(number as int) <= 20,
            n > 0 ==> digit_count + ndigits(n as int) == ndigits(number as int),
            n == 0 ==> digit_count == ndigits(number as int),
            digit_count <= 20,
        decreases n,
    {
        proof {
            lemma_ndigits_pos(n as int / 10);
        }
        n = n / 10;
        digit_count = digit_count + 1;
    }
    digit_count
}

fn pow_u64(base: u64, exp: u32) -> (r: u64)
    requires
        power_of(base as int, exp as nat) <= u64::MAX,
    ensures
        r as int == power_of(base as int, exp as nat),
{
    if exp == 0 {
        return 1;
    }
    let mut output = base;
    let mut i: u32 = 0;
    proof {
        assert(power_of(base as int, 0) == 1);
        assert(power_of(base as int, 1) == base as int * power_of(base as int, 0));
    }
    while i < exp - 1
        invariant
            1 <= exp,
            i <= exp - 1,
            output as int == power_of(base as int, (i + 1) as nat),
            power_of(base as int, exp as nat) <= u64::MAX,
        decreases exp - 1 - i,
    {
        proof {
            assert(power_of(base as int, (i + 2) as nat) == base * power_of(
                base as int,
                (i + 1) as nat,
            ));
            if base > 0 {
                lemma_power_of_monotone(base as int, (i + 2) as nat, exp as nat);
            }
            lemma_power_of_pos(base as int, (i + 1) as nat);
        }
        output = output * base;
        i = i + 1;
    }
    output
}

/// The integer interface of the renderer: a mathematical value, the type's
/// bounds, the magnitude operations the sign handling needs, and a lossless
/// view of nonnegative values as the unsigned counterpart.
pub trait Integer: Sized + Copy {
    /// The unsigned counterpart, able to carry every nonnegative value.
    type Unsigned: UInteger;

    /// The mathematical value.
    spec fn as_int(&self) -> int;

    /// The smallest value of the type.
    spec fn min_spec() -> int;

    /// The largest value of the type.
    spec fn max_spec() -> int;

    /// The value is in range, and every nonnegative value fits the
    /// unsigned counterpart.
    proof fn lemma_int_range(&self)
        ensures
            Self::min_spec() <= self.as_int() <= Self::max_spec(),
            Self::max_spec() <= <Self::Unsigned as UInteger>::max_value_spec(),
    ;

    /// Reinterpret a nonnegative value in the unsigned counterpart; a
    /// negative one has no such reading and is excluded.
    fn as_unsigned(&self) -> (r: Self::Unsigned)
        requires
            0 <= self.as_int(),
        ensures
            r.as_nat() == self.as_int(),
    ;

    /// The magnitude.  The smallest value of a signed type has none that
    /// fits, so it is excluded.
    fn abs(self) -> (r: Self)
        requires
            Self::min_spec() < 0 ==> self.as_int() != Self::min_spec(),
        ensures
            r.as_int() == (if self.as_int() >= 0 {
                self.as_int()
            } else {
                -self.as_int()
            }),
    ;

    /// The smallest value of the type.
    fn min_value() -> (r: Self)
        ensures
            r.as_int() == Self::min_spec(),
    ;
}

/// Restriction of the integer interface to the unsigned machine integers
/// that fit in 64 bits: the value as a nonnegative number, and lossless
/// conversions through `u64`.  A cyclic bound between the two traits (the
/// unsigned counterpart is itself an integer whose counterpart is unsigned)
/// cannot be checked for termination, so this trait stands on its own.
pub trait UInteger: Sized + Copy {
    /// The mathematical value.
    spec fn as_nat(&self) -> int;

    /// The largest value of the type.
    spec fn max_value_spec() -> int;

    /// The value is in range and the type fits in 64 bits.
    proof fn lemma_in_range(&self)
        ensures
            0 <= self.as_nat() <= Self::max_value_spec(),
            Self::max_value_spec() <= u64::MAX as int,
    ;

    fn as_u64(&self) -> (r: u64)
        ensures
            r as int == self.as_nat(),
    ;

    fn from_u64(v: u64) -> (r: Self)
        requires
            0 <= v as int <= Self::max_value_spec(),
        ensures
            r.as_nat() == v as int,
    ;

    /// Raise to the power `exp`; the result must fit the type, so inputs
    /// that would overflow it are excluded.
    fn pow(self, exp: u32) -> (r: Self)
        requires
            power_of(self.as_nat(), exp as nat) <= Self::max_value_spec(),
        ensures
            r.as_nat() == power_of(self.as_nat(), exp as nat),
    {
        proof {
            self.lemma_in_range();
            lemma_power_of_pos(self.as_nat(), exp as nat);
        }
        let v = self.as_u64();
        let r = pow_u64(v, exp);
        Self::from_u64(r)
    }
}

impl UInteger for u8 {
    open spec fn as_nat(&self) -> int {
        *self as int
    }

    open spec fn max_value_spec() -> int {
        u8::MAX as int
    }

    proof fn lemma_in_range(&self) {
    }

    fn as_u64(&self) -> (r: u64) {
        *self as u64
    }

    fn from_u64(v: u64) -> (r: Self) {
        v as u8
    }
}

impl UInteger for u16 {
    open spec fn as_nat(&self) -> int {
        *self as int
    }

    open spec fn max_value_spec() -> int {
        u16::MAX as int
    }

    proof fn lemma_in_range(&self) {
    }

    fn as_u64(&self) -> (r: u64) {
        *self as u64
    }

    fn from_u64(v: u64) -> (r: Self) {
        v as u16
    }
}

impl UInteger for u32 {
    open spec fn as_nat(&self) -> int {
        *self as int
    }

    open spec fn max_value_spec() -> int {
        u32::MAX as int
    }

    proof fn lemma_in_range(&self) {
    }

    fn as_u64(&self) -> (r: u64) {
        *self as u64
    }

    fn from_u64(v: u64) -> (r: Self) {
        v as u32
    }
}

impl UInteger for u64 {
    open spec fn as_nat(&self) -> int {
        *self as int
    }

    open spec fn max_value_spec() -> int {
        u64::MAX as int
    }

    proof fn lemma_in_range(&self) {
    }

    fn as_u64(&self) -> (r: u64) {
        *self
    }

    fn from_u64(v: u64) -> (r: Self) {
        v
    }
}

impl UInteger for usize {
    open spec fn as_nat(&self) -> int {
        *self as int
    }

    open spec fn max_value_spec() -> int {
        usize::MAX as int
    }

    proof fn lemma_in_range(&self) {
    }

    fn as_u64(&self) -> (r: u64) {
        *self as u64
    }

    fn from_u64(v: u64) -> (r: Self) {
        v as usize
    }
}

/// `m` ASCII zero digits.
pub open spec fn zero_bytes(m: int) -> Seq<u8> {
    Seq::new(m as nat, |i: int| 48u8)
}

/// A number below ten to the `m` has at most `m` digits.
pub proof fn lemma_ndigits_lt_pow(r: int, m: int)
    requires
        0 <= r,
        1 <= m,
        r < pow10(m as nat),
    ensures
        ndigits(r) <= m,
{
    lemma_ndigits_pos(r);
    if 1 <= r && ndigits(r) > m {
        lemma_ndigits_bounds(r);
        lemma_power_of_monotone(10, m as nat, (ndigits(r) - 1) as nat);
        assert(false);
    }
}

/// How the decimal text splits at the most significant digit: for a number
/// `n` of `k >= 2` digits, with `p` ten to the `k - 1`, the text is the
/// leading digit `n / p`, then enough zeros to cover the gap down to the
/// remainder's own digits, then the remainder's text.
pub proof fn lemma_dec_split(n: int)
    requires
        10 <= n,
    ensures
        ({
            let k = ndigits(n);
            let p = pow10((k - 1) as nat);
            let d = n / p;
            let r = n % p;
            dec_digits(n) == seq![(d + 48) as u8] + zero_bytes(k - 1 - ndigits(r)) + dec_digits(r)
        }),
    decreases n,
{
    let k = ndigits(n);
    let p = pow10((k - 1) as nat);
    let d = n / p;
    let r = n % p;
    lemma_ndigits_pos(n / 10);
    lemma_ndigits_bounds(n);
    lemma_power_of_pos(10, (k - 2) as nat);
    assert(p == 10 * pow10((k - 2) as nat));
    lemma_fundamental_div_mod(n, p);
    lemma_mod_bound(n, p);
    assert(1 <= d && d <= 9) by (nonlinear_arith)
        requires
            n == p * d + r,
            0 <= r < p,
            p <= n,
            n < 10 * p,
            1 <= p,
    ;
    lemma_ndigits_lt_pow(r, k - 1);
    lemma_ndigits_pos(r);
    if k == 2 {
        assert(p == 10);
        assert(dec_digits(n) == dec_digits(d) + seq![(n % 10 + 48) as u8]);
        assert(dec_digits(d) == seq![(d + 48) as u8]);
        assert(ndigits(r) == 1);
        assert(zero_bytes(0) =~= Seq::<u8>::empty());
        assert(seq![(d + 48) as u8] + zero_bytes(0) + dec_digits(r) =~= dec_digits(n));
    } else {
        let n2 = n / 10;
        let p2 = pow10((k - 2) as nat);
        let d2 = n2 / p2;
        let r2 = n2 % p2;
        assert(ndigits(n2) == k - 1);
        assert(10 <= n2) by {
            if n2 < 10 {
                assert(ndigits(n2) == 1);
            }
        }
        lemma_dec_split(n2);
        // the leading digit is the same one level down
        lemma_div_denominator(n, 10, p2);
        assert(d2 == d);
        // the remainder one level down is the remainder without its last digit
        lemma_breakdown(n, 10, p2);
        assert(r == 10 * r2 + n % 10);
        lemma_fundamental_div_mod(n, 10);
        lemma_mod_bound(n, 10);
        lemma_mod_bound(n2, p2);
        lemma_fundamental_div_mod_converse(r, 10, r2, n % 10);
        assert(r2 == r / 10 && n % 10 == r % 10);
        if r < 10 {
            assert(r2 == 0) by {
                lemma_fundamental_div_mod_converse(r, 10, 0, r);
            }
            assert(ndigits(r) == 1);
            assert(ndigits(r2) == 1);
            assert(dec_digits(r2) == seq![48u8]);
            assert(dec_digits(n) == dec_digits(n2) + seq![(n % 10 + 48) as u8]);
            assert(r % 10 == r);
            assert(dec_digits(n) =~= seq![(d + 48) as u8] + zero_bytes(k - 1 - ndigits(r))
                + dec_digits(r));
        } else {
            assert(ndigits(r) == 1 + ndigits(r2));
            assert(dec_digits(r) == dec_digits(r2) + seq![(r % 10 + 48) as u8]);
            assert(dec_digits(n) == dec_digits(n2) + seq![(n % 10 + 48) as u8]);
            assert(dec_digits(n) =~= seq![(d + 48) as u8] + zero_bytes(k - 1 - ndigits(r))
                + dec_digits(r));
        }
    }
}

impl Integer for u8 {
    type Unsigned = u8;

    open spec fn as_int(&self) -> int {
        *self as int
    }

    open spec fn min_spec() -> int {
        0
    }

    open spec fn max_spec() -> int {
        u8::MAX as int
    }

    proof fn lemma_int_range(&self) {
    }

    fn as_unsigned(&self) -> (r: u8) {
        *self
    }

    fn abs(self) -> (r: u8) {
        self
    }

    fn min_value() -> (r: u8) {
        0
    }
}

impl Integer for u16 {
    type Unsigned = u16;

    open spec fn as_int(&self) -> int {
        *self as int
    }

    open spec fn min_spec() -> int {
        0
    }

    open spec fn max_spec() -> int {
        u16::MAX as int
    }

    proof fn lemma_int_range(&self) {
    }

    fn as_unsigned(&self) -> (r: u16) {
        *self
    }

    fn abs(self) -> (r: u16) {
        self
    }

    fn min_value() -> (r: u16) {
        0
    }
}

impl Integer for u32 {
    type Unsigned = u32;

    open spec fn as_int(&self) -> int {
        *self as int
    }

    open spec fn min_spec() -> int {
        0
    }

    open spec fn max_spec() -> int {
        u32::MAX as int
    }

    proof fn lemma_int_range(&self) {
    }

    fn as_unsigned(&self) -> (r: u32) {
        *self
    }

    fn abs(self) -> (r: u32) {
        self
    }

    fn min_value() -> (r: u32) {
        0
    }
}

impl Integer for u64 {
    type Unsigned = u64;

    open spec fn as_int(&self) -> int {
        *self as int
    }

    open spec fn min_spec() -> int {
        0
    }

    open spec fn max_spec() -> int {
        u64::MAX as int
    }

    proof fn lemma_int_range(&self) {
    }

    fn as_unsigned(&self) -> (r: u64) {
        *self
    }

    fn abs(self) -> (r: u64) {
        self
    }

    fn min_value() -> (r: u64) {
        0
    }
}

impl Integer for usize {
    type Unsigned = usize;

    open spec fn as_int(&self) -> int {
        *self as int
    }

    open spec fn min_spec() -> int {
        0
    }

    open spec fn max_spec() -> int {
        usize::MAX as int
    }

    proof fn lemma_int_range(&self) {
    }

    fn as_unsigned(&self) -> (r: usize) {
        *self
    }

    fn abs(self) -> (r: usize) {
        self
    }

    fn min_value() -> (r: usize) {
        0
    }
}

impl Integer for i8 {
    type Unsigned = u8;

    open spec fn as_int(&self) -> int {
        *self as int
    }

    open spec fn min_spec() -> int {
        i8::MIN as int
    }

    open spec fn max_spec() -> int {
        i8::MAX as int
    }

    proof fn lemma_int_range(&self) {
    }

    fn as_unsigned(&self) -> (r: u8) {
        *self as u8
    }

    fn abs(self) -> (r: i8) {
        if self < 0 {
            0 - self
        } else {
            self
        }
    }

    fn min_value() -> (r: i8) {
        i8::MIN
    }
}

impl Integer for i16 {
    type Unsigned = u16;

    open spec fn as_int(&self) -> int {
        *self as int
    }

    open spec fn min_spec() -> int {
        i16::MIN as int
    }

    open spec fn max_spec() -> int {
        i16::MAX as int
    }

    proof fn lemma_int_range(&self) {
    }

    fn as_unsigned(&self) -> (r: u16) {
        *self as u16
    }

    fn abs(self) -> (r: i16) {
        if self < 0 {
            0 - self
        } else {
            self
        }
    }

    fn min_value() -> (r: i16) {
        i16::MIN
    }
}

impl Integer for i32 {
    type Unsigned = u32;

    open spec fn as_int(&self) -> int {
        *self as int
    }

    open spec fn min_spec() -> int {
        i32::MIN as int
    }

    open spec fn max_spec() -> int {
        i32::MAX as int
    }

    proof fn lemma_int_range(&self) {
    }

    fn as_unsigned(&self) -> (r: u32) {
        *self as u32
    }

    fn abs(self) -> (r: i32) {
        if self < 0 {
            0 - self
        } else {
            self
        }
    }

    fn min_value() -> (r: i32) {
        i32::MIN
    }
}

impl Integer for i64 {
    type Unsigned = u64;

    open spec fn as_int(&self) -> int {
        *self as int
    }

    open spec fn min_spec() -> int {
        i64::MIN as int
    }

    open spec fn max_spec() -> int {
        i64::MAX as int
    }

    proof fn lemma_int_range(&self) {
    }

    fn as_unsigned(&self) -> (r: u64) {
        *self as u64
    }

    fn abs(self) -> (r: i64) {
        if self < 0 {
            0 - self
        } else {
            self
        }
    }

    fn min_value() -> (r: i64) {
        i64::MIN
    }
}

impl Integer for isize {
    type Unsigned = usize;

    open spec fn as_int(&self) -> int {
        *self as int
    }

    open spec fn min_spec() -> int {
        isize::MIN as int
    }

    open spec fn max_spec() -> int {
        isize::MAX as int
    }

    proof fn lemma_int_range(&self) {
    }

    fn as_unsigned(&self) -> (r: usize) {
        *self as usize
    }

    fn abs(self) -> (r: isize) {
        if self < 0 {
            0 - self
        } else {
            self
        }
    }

    fn min_value() -> (r: isize) {
        isize::MIN
    }
}

/// Counts the digits in an integer.
pub fn count_digits<T: UInteger>(number: T) -> (r: u32)
    ensures
        r as int == ndigits(number.as_nat()),
{
    proof {
        number.lemma_in_range();
    }
    count_digits_u64(number.as_u64())
}

/// Append one decimal digit as its ASCII byte.
fn print_digit(digit: u8, a: &mut DummyAllocator, out: &mut crate::text::String)
    requires
        digit < 10,
        old(out).wf(*old(a)),
        old(out).vec.capacity <= usize::MAX / 4,
    ensures
        appended(old(out).vec, *old(a), final(out).vec, *final(a), seq![(digit + 48) as u8]),
{
    out.vec.push(a, digit + 48);
}

/// Append the decimal digits of `n`, most significant first, the way the
/// renderer works: count the digits, strip the most significant one off with
/// a power of ten, pad the gap down to the remainder's digits with zeros,
/// and recur on the remainder.
#[verifier::rlimit(60)]
#[verifier::loop_isolation(false)]
fn put_digits(n: u64, a: &mut DummyAllocator, out: &mut crate::text::String)
    requires
        old(out).wf(*old(a)),
        old(out).vec.capacity <= usize::MAX / 4,
        2 * (old(out).vec.offset + ndigits(n as int)) <= usize::MAX / 4,
    ensures
        appended(old(out).vec, *old(a), final(out).vec, *final(a), dec_digits(n as int)),
    decreases n,
{
    let ghost b0 = out.vec;
    let ghost a0 = *a;
    if n < 10 {
        print_digit(n as u8, a, out);
        return ;
    }
    proof {
        lemma_ndigits_bounds(n as int);
        lemma_ndigits_le_20(n as int);
        lemma_dec_split(n as int);
        lemma_dec_len(n as int);
    }
    let digit_count = count_digits_u64(n);
    let pow = pow_u64(10, digit_count - 1);
    let digit = n / pow;
    proof {
        lemma_power_of_pos(10, (digit_count - 1) as nat);
        lemma_fundamental_div_mod(n as int, pow as int);
        lemma_mod_bound(n as int, pow as int);
        let ni = n as int;
        let pi = pow as int;
        let di = digit as int;
        let ri = ni % pi;
        assert(1 <= di && di <= 9) by (nonlinear_arith)
            requires
                ni == pi * di + ri,
                0 <= ri,
                ri < pi,
                pi <= ni,
                ni < 10 * pi,
                1 <= pi,
        ;
    }
    let rest = n - digit * pow;
    proof {
        assert(rest as int == n as int % pow as int);
        lemma_ndigits_lt_pow(rest as int, digit_count as int - 1);
        lemma_ndigits_pos(rest as int);
        lemma_dec_len(rest as int);
    }
    print_digit(digit as u8, a, out);
    let ghost s1 = seq![(digit + 48) as u8];
    let rest_count = count_digits_u64(rest);
    let diff = digit_count - rest_count - 1;
    let mut z: u32 = 0;
    proof {
        assert(s1 + zero_bytes(0) =~= s1);
    }
    while z < diff
        invariant
            z <= diff,
            1 + diff + ndigits(rest as int) == ndigits(n as int),
            1 <= ndigits(rest as int),
            b0.capacity <= usize::MAX / 4,
            out.vec.capacity <= usize::MAX / 4,
            2 * (b0.offset + ndigits(n as int)) <= usize::MAX / 4,
            appended(b0, a0, out.vec, *a, s1 + zero_bytes(z as int)),
            out.wf(*a),
        decreases diff - z,
    {
        let ghost bmid = out.vec;
        let ghost amid = *a;
        print_digit(0, a, out);
        proof {
            assert(appended(bmid, amid, out.vec, *a, seq![48u8])) by {
                assert(seq![(0u8 + 48) as u8] =~= seq![48u8]);
            }
            lemma_appended_trans(
                b0,
                a0,
                bmid,
                amid,
                out.vec,
                *a,
                s1 + zero_bytes(z as int),
                seq![48u8],
            );
            assert(s1 + zero_bytes(z + 1) =~= (s1 + zero_bytes(z as int)) + seq![48u8]);
        }
        z = z + 1;
    }
    let ghost bmid = out.vec;
    let ghost amid = *a;
    put_digits(rest, a, out);
    proof {
        lemma_appended_trans(
            b0,
            a0,
            bmid,
            amid,
            out.vec,
            *a,
            s1 + zero_bytes(diff as int),
            dec_digits(rest as int),
        );
        assert(dec_digits(n as int) =~= (s1 + zero_bytes(diff as int)) + dec_digits(rest as int));
    }
}

/// Append the decimal digits of `number`, most significant first.
pub fn get_next_digit<T: UInteger>(number: T, a: &mut DummyAllocator, out: &mut crate::text::String)
    requires
        old(out).wf(*old(a)),
        old(out).vec.capacity <= usize::MAX / 4,
        2 * (old(out).vec.offset + ndigits(number.as_nat())) <= usize::MAX / 4,
    ensures
        appended(old(out).vec, *old(a), final(out).vec, *final(a), dec_digits(number.as_nat())),
{
    proof {
        number.lemma_in_range();
    }
    put_digits(number.as_u64(), a, out)
}

/// Something that renders itself as UTF-8 bytes appended to a text
/// buffer.  What gets appended is `rendered`; it may read the allocator, so
/// that a buffer can print its own contents.  Emitting the accumulated
/// bytes to a file descriptor happens outside this library.
pub trait Printable {
    /// The bytes this value renders as.
    spec fn rendered(&self, a: DummyAllocator) -> Seq<u8>;

    /// What printing this value needs of the allocator (a buffer can only
    /// print its own contents when it is well-formed in it).
    spec fn print_req(&self, a: DummyAllocator) -> bool;

    fn print(&self, a: &mut DummyAllocator, out: &mut crate::text::String)
        requires
            self.print_req(*old(a)),
            old(out).wf(*old(a)),
            old(out).vec.capacity <= usize::MAX / 4,
            2 * (old(out).vec.offset + self.rendered(*old(a)).len()) <= usize::MAX / 4,
        ensures
            appended(old(out).vec, *old(a), final(out).vec, *final(a), self.rendered(*old(a))),
    ;

    fn println(&self, a: &mut DummyAllocator, out: &mut crate::text::String)
        requires
            self.print_req(*old(a)),
            old(out).wf(*old(a)),
            old(out).vec.capacity <= usize::MAX / 4,
            2 * (old(out).vec.offset + self.rendered(*old(a)).len() + 1) <= usize::MAX / 4,
        ensures
            appended(
                old(out).vec,
                *old(a),
                final(out).vec,
                *final(a),
                self.rendered(*old(a)) + seq![10u8],
            ),
    {
        let ghost b0 = out.vec;
        let ghost a0 = *a;
        self.print(a, out);
        let ghost bmid = out.vec;
        let ghost amid = *a;
        out.vec.push(a, 10u8);
        proof {
            lemma_appended_trans(b0, a0, bmid, amid, out.vec, *a, self.rendered(a0), seq![10u8]);
        }
    }
}

impl Printable for &str {
    open spec fn rendered(&self, a: DummyAllocator) -> Seq<u8> {
        (*self).spec_bytes()
    }

    open spec fn print_req(&self, a: DummyAllocator) -> bool {
        true
    }

    fn print(&self, a: &mut DummyAllocator, out: &mut crate::text::String) {
        out.push(a, self)
    }
}

impl<T: UInteger> Printable for T {
    open spec fn rendered(&self, a: DummyAllocator) -> Seq<u8> {
        dec_digits(self.as_nat())
    }

    open spec fn print_req(&self, a: DummyAllocator) -> bool {
        true
    }

    fn print(&self, a: &mut DummyAllocator, out: &mut crate::text::String) {
        proof {
            lemma_dec_len(self.as_nat());
        }
        get_next_digit(*self, a, out)
    }
}

impl Printable for i64 {
    open spec fn rendered(&self, a: DummyAllocator) -> Seq<u8> {
        if *self >= 0 {
            dec_digits(*self as int)
        } else {
            seq![45u8] + dec_digits(-(*self as int))
        }
    }

    open spec fn print_req(&self, a: DummyAllocator) -> bool {
        true
    }

    fn print(&self, a: &mut DummyAllocator, out: &mut crate::text::String) {
        let ghost b0 = out.vec;
        let ghost a0 = *a;
        if *self >= 0 {
            proof {
                lemma_dec_len(*self as int);
            }
            put_digits(*self as u64, a, out);
        } else {
            proof {
                lemma_dec_len(-(*self as int));
                lemma_ndigits_pos(-(*self as int));
            }
            out.vec.push(a, 45u8);
            let ghost bmid = out.vec;
            let ghost amid = *a;
            let mag: u64 = if *self == i64::MIN {
                9223372036854775808u64
            } else {
                (-*self) as u64
            };
            put_digits(mag, a, out);
            proof {
                lemma_appended_trans(
                    b0,
                    a0,
                    bmid,
                    amid,
                    out.vec,
                    *a,
                    seq![45u8],
                    dec_digits(mag as int),
                );
            }
        }
    }
}

impl Printable for i8 {
    open spec fn rendered(&self, a: DummyAllocator) -> Seq<u8> {
        if *self >= 0 {
            dec_digits(*self as int)
        } else {
            seq![45u8] + dec_digits(-(*self as int))
        }
    }

    open spec fn print_req(&self, a: DummyAllocator) -> bool {
        true
    }

    fn print(&self, a: &mut DummyAllocator, out: &mut crate::text::String) {
        let wide: i64 = *self as i64;
        wide.print(a, out)
    }
}

impl Printable for i16 {
    open spec fn rendered(&self, a: DummyAllocator) -> Seq<u8> {
        if *self >= 0 {
            dec_digits(*self as int)
        } else {
            seq![45u8] + dec_digits(-(*self as int))
        }
    }

    open spec fn print_req(&self, a: DummyAllocator) -> bool {
        true
    }

    fn print(&self, a: &mut DummyAllocator, out: &mut crate::text::String) {
        let wide: i64 = *self as i64;
        wide.print(a, out)
    }
}

impl Printable for i32 {
    open spec fn rendered(&self, a: DummyAllocator) -> Seq<u8> {
        if *self >= 0 {
            dec_digits(*self as int)
        } else {
            seq![45u8] + dec_digits(-(*self as int))
        }
    }

    open spec fn print_req(&self, a: DummyAllocator) -> bool {
        true
    }

    fn print(&self, a: &mut DummyAllocator, out: &mut crate::text::String) {
        let wide: i64 = *self as i64;
        wide.print(a, out)
    }
}

impl Printable for isize {
    open spec fn rendered(&self, a: DummyAllocator) -> Seq<u8> {
        if *self >= 0 {
            dec_digits(*self as int)
        } else {
            seq![45u8] + dec_digits(-(*self as int))
        }
    }

    open spec fn print_req(&self, a: DummyAllocator) -> bool {
        true
    }

    fn print(&self, a: &mut DummyAllocator, out: &mut crate::text::String) {
        let wide: i64 = *self as i64;
        wide.print(a, out)
    }
}

/// A buffer's bytes rendered element by element: each byte's decimal
/// digits, in buffer order.
pub open spec fn dec_cat(s: Seq<u8>) -> Seq<u8>
    decreases s.len(),
{
    if s.len() == 0 {
        Seq::empty()
    } else {
        dec_digits(s[0] as int) + dec_cat(s.drop_first())
    }
}

/// Rendering one more element appends its digits.
proof fn lemma_dec_cat_push(s: Seq<u8>, x: u8)
    ensures
        dec_cat(s.push(x)) == dec_cat(s) + dec_digits(x as int),
    decreases s.len(),
{
    if s.len() == 0 {
        assert(s.push(x).drop_first() =~= Seq::<u8>::empty());
        assert(s.push(x)[0] == x);
        assert(dec_cat(s.push(x).drop_first()) =~= Seq::<u8>::empty()) by {
            reveal_with_fuel(dec_cat, 2);
        }
        assert(dec_cat(s.push(x)) =~= dec_cat(s) + dec_digits(x as int));
    } else {
        lemma_dec_cat_push(s.drop_first(), x);
        assert(s.push(x).drop_first() =~= s.drop_first().push(x));
        assert(s.push(x)[0] == s[0]);
        assert(dec_cat(s.push(x)) == dec_digits(s[0] as int) + (dec_cat(s.drop_first())
            + dec_digits(x as int)));
        assert(dec_cat(s.push(x)) =~= dec_cat(s) + dec_digits(x as int));
    }
}

/// A prefix renders no more bytes than the whole.
proof fn lemma_dec_cat_prefix(s: Seq<u8>, i: int)
    requires
        0 <= i <= s.len(),
    ensures
        dec_cat(s.subrange(0, i)).len() <= dec_cat(s).len(),
    decreases s.len() - i,
{
    if i < s.len() {
        lemma_dec_cat_prefix(s, i + 1);
        lemma_dec_cat_push(s.subrange(0, i), s[i]);
        assert(s.subrange(0, i + 1) =~= s.subrange(0, i).push(s[i]));
        lemma_ndigits_pos(s[i] as int);
        lemma_dec_len(s[i] as int);
    } else {
        assert(s.subrange(0, i) =~= s);
    }
}

/// A buffer prints each of its byte elements in order.
impl Printable for crate::buffer::Vec {
    open spec fn rendered(&self, a: DummyAllocator) -> Seq<u8> {
        dec_cat(self.bytes(a))
    }

    open spec fn print_req(&self, a: DummyAllocator) -> bool {
        self.wf(a)
    }

    #[verifier::rlimit(60)]
    #[verifier::loop_isolation(false)]
    fn print(&self, a: &mut DummyAllocator, out: &mut crate::text::String) {
        let ghost b0 = out.vec;
        let ghost a0 = *a;
        let ghost s = self.bytes(*a);
        let copied: Vec<u8> = vstd::slice::slice_to_vec(self.as_slice(a));
        let n = copied.len();
        let mut i: usize = 0;
        proof {
            assert(dec_cat(s.subrange(0, 0)) =~= Seq::<u8>::empty());
            assert(b0.bytes(a0) + dec_cat(s.subrange(0, 0)) =~= b0.bytes(a0));
        }
        while i < n
            invariant
                i <= n,
                appended(b0, a0, out.vec, *a, dec_cat(s.subrange(0, i as int))),
            decreases n - i,
        {
            let byte = copied[i];
            let ghost bmid = out.vec;
            let ghost amid = *a;
            proof {
                lemma_dec_cat_prefix(s, i + 1);
                lemma_dec_cat_push(s.subrange(0, i as int), byte);
                assert(s.subrange(0, i + 1) =~= s.subrange(0, i as int).push(byte));
                lemma_ndigits_pos(byte as int);
                lemma_dec_len(byte as int);
            }
            put_digits(byte as u64, a, out);
            proof {
                lemma_appended_trans(
                    b0,
                    a0,
                    bmid,
                    amid,
                    out.vec,
                    *a,
                    dec_cat(s.subrange(0, i as int)),
                    dec_digits(byte as int),
                );
            }
            i = i + 1;
        }
        proof {
            assert(s.subrange(0, n as int) =~= s);
        }
    }
}

/// A byte slice prints each of its elements in order.
impl Printable for &[u8] {
    open spec fn rendered(&self, a: DummyAllocator) -> Seq<u8> {
        dec_cat(self@)
    }

    open spec fn print_req(&self, a: DummyAllocator) -> bool {
        true
    }

    #[verifier::rlimit(60)]
    #[verifier::loop_isolation(false)]
    fn print(&self, a: &mut DummyAllocator, out: &mut crate::text::String) {
        let ghost b0 = out.vec;
        let ghost a0 = *a;
        let ghost s = self@;
        let n = self.len();
        let mut i: usize = 0;
        proof {
            assert(dec_cat(s.subrange(0, 0)) =~= Seq::<u8>::empty());
            assert(b0.bytes(a0) + dec_cat(s.subrange(0, 0)) =~= b0.bytes(a0));
        }
        while i < n
            invariant
                i <= n,
                appended(b0, a0, out.vec, *a, dec_cat(s.subrange(0, i as int))),
            decreases n - i,
        {
            let byte = self[i];
            let ghost bmid = out.vec;
            let ghost amid = *a;
            proof {
                lemma_dec_cat_prefix(s, i + 1);
                lemma_dec_cat_push(s.subrange(0, i as int), byte);
                assert(s.subrange(0, i + 1) =~= s.subrange(0, i as int).push(byte));
                lemma_ndigits_pos(byte as int);
                lemma_dec_len(byte as int);
            }
            put_digits(byte as u64, a, out);
            proof {
                lemma_appended_trans(
                    b0,
                    a0,
                    bmid,
                    amid,
                    out.vec,
                    *a,
                    dec_cat(s.subrange(0, i as int)),
                    dec_digits(byte as int),
                );
            }
            i = i + 1;
        }
        proof {
            assert(s.subrange(0, n as int) =~= s);
        }
    }
}

/// A buffer prints its own accumulated bytes.
impl Printable for crate::text::String {
    open spec fn rendered(&self, a: DummyAllocator) -> Seq<u8> {
        self.bytes(a)
    }

    open spec fn print_req(&self, a: DummyAllocator) -> bool {
        self.wf(a)
    }

    fn print(&self, a: &mut DummyAllocator, out: &mut crate::text::String) {
        let copied: Vec<u8> = vstd::slice::slice_to_vec(self.as_slice(a));
        out.vec.push_slice(a, copied.as_slice());
    }
}

/// Render `msg` into `out`.
pub fn print<T: Printable>(msg: T, a: &mut DummyAllocator, out: &mut crate::text::String)
    requires
        msg.print_req(*old(a)),
        old(out).wf(*old(a)),
        old(out).vec.capacity <= usize::MAX / 4,
        2 * (old(out).vec.offset + msg.rendered(*old(a)).len()) <= usize::MAX / 4,
    ensures
        appended(old(out).vec, *old(a), final(out).vec, *final(a), msg.rendered(*old(a))),
{
    msg.print(a, out)
}

/// Render `msg` and a newline into `out`.
pub fn println<T: Printable>(msg: T, a: &mut DummyAllocator, out: &mut crate::text::String)
    requires
        msg.print_req(*old(a)),
        old(out).wf(*old(a)),
        old(out).vec.capacity <= usize::MAX / 4,
        2 * (old(out).vec.offset + msg.rendered(*old(a)).len() + 1) <= usize::MAX / 4,
    ensures
        appended(
            old(out).vec,
            *old(a),
            final(out).vec,
            *final(a),
            msg.rendered(*old(a)) + seq![10u8],
        ),
{
    msg.println(a, out)
}

} // verus!
