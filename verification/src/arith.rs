//! Single-precision arithmetic.
//!
//! A finite number is an integer multiple of 2 to the power of -149, the
//! smallest positive number. Sums, products and quotients are defined as the
//! number nearest to the exact result, and computed with integers.

use crate::single;
use crate::single::{exp2, excess, round_even, Single};
use vstd::arithmetic::div_mod::{lemma_fundamental_div_mod, lemma_fundamental_div_mod_converse};
use vstd::arithmetic::power2::{lemma_pow2_unfold, pow2};
use vstd::prelude::*;

verus! {

// ── Values ───────────────────────────────────────────────────────────────────

impl Single {
    pub open spec fn is_finite(self) -> bool {
        !self.is_nan() && !self.is_infinite()
    }

    /// The exponent of the unit of the mantissa, in multiples of 2 to the power
    /// of -149.
    pub open spec fn shift(self) -> nat {
        (self.exponent() + 149) as nat
    }

    /// The magnitude of a finite number in multiples of 2 to the power of -149.
    pub open spec fn magnitude(self) -> nat {
        self.mantissa() * exp2(self.shift())
    }

    /// A finite number in multiples of 2 to the power of -149.
    pub open spec fn value(self) -> int {
        if self.is_negative() {
            -(self.magnitude() as int)
        } else {
            self.magnitude() as int
        }
    }
}

/// The encoding of the magnitude nearest to `num / den` multiples of 2 to the
/// power of -149. What is too large becomes infinite.
pub open spec fn nearest_bits(num: nat, den: nat) -> nat {
    let k = excess(num / den);
    let b = k * 8388608 + round_even(num, den * exp2(k));
    if b > 0x7f80_0000 {
        0x7f80_0000
    } else {
        b
    }
}

/// The number with this sign and this encoded magnitude.
pub open spec fn with_sign(negative: bool, bits: nat) -> Single {
    Single {
        bits: (if negative {
            0x8000_0000 + bits
        } else {
            bits
        }) as u32,
    }
}

/// What is not a number.
pub open spec fn no_number() -> Single {
    Single { bits: 0x7fc0_0000 }
}

pub open spec fn infinity(negative: bool) -> Single {
    with_sign(negative, 0x7f80_0000)
}

pub open spec fn zero(negative: bool) -> Single {
    with_sign(negative, 0)
}

impl Single {
    pub open spec fn negated(self) -> Single {
        with_sign(!self.is_negative(), (self.bits % 0x8000_0000) as nat)
    }

    /// `self + other`.
    pub open spec fn sum(self, other: Single) -> Single {
        if self.is_nan() || other.is_nan() {
            no_number()
        } else if self.is_infinite() {
            if other.is_infinite() && self.is_negative() != other.is_negative() {
                no_number()
            } else {
                self
            }
        } else if other.is_infinite() {
            other
        } else {
            let v = self.value() + other.value();
            if v == 0 {
                zero(self.is_negative() && other.is_negative())
            } else if v < 0 {
                with_sign(true, nearest_bits((-v) as nat, 1))
            } else {
                with_sign(false, nearest_bits(v as nat, 1))
            }
        }
    }

    /// `self * other`.
    pub open spec fn product(self, other: Single) -> Single {
        let negative = self.is_negative() != other.is_negative();
        if self.is_nan() || other.is_nan() {
            no_number()
        } else if self.is_infinite() || other.is_infinite() {
            if (self.is_finite() && self.magnitude() == 0) || (other.is_finite()
                && other.magnitude() == 0) {
                no_number()
            } else {
                infinity(negative)
            }
        } else {
            with_sign(negative, nearest_bits(self.magnitude() * other.magnitude(), exp2(149)))
        }
    }

    /// `self / other`.
    pub open spec fn ratio(self, other: Single) -> Single {
        let negative = self.is_negative() != other.is_negative();
        if self.is_nan() || other.is_nan() {
            no_number()
        } else if self.is_infinite() {
            if other.is_infinite() {
                no_number()
            } else {
                infinity(negative)
            }
        } else if other.is_infinite() {
            zero(negative)
        } else if other.magnitude() == 0 {
            if self.magnitude() == 0 {
                no_number()
            } else {
                infinity(negative)
            }
        } else {
            with_sign(negative, nearest_bits(self.magnitude() * exp2(149), other.magnitude()))
        }
    }
}

/// The number nearest to the whole number `n`.
pub open spec fn counted(n: nat) -> Single {
    with_sign(false, nearest_bits(n * exp2(149), 1))
}

/// `v`, held between `low` and `high`.
pub open spec fn held(v: int, low: int, high: int) -> int {
    if v < low {
        low
    } else if v > high {
        high
    } else {
        v
    }
}

impl Single {
    /// `self < other`.
    pub open spec fn lt(self, other: Single) -> bool {
        !self.is_nan() && !other.is_nan() && self.key() < other.key()
    }

    /// The number, held between `low` and `high`. What is not a number stays as
    /// it is.
    pub open spec fn clamped(self, low: Single, high: Single) -> Single {
        if self.lt(low) {
            low
        } else if high.lt(self) {
            high
        } else {
            self
        }
    }

    /// The larger of two, or the one that is a number.
    pub open spec fn larger(self, other: Single) -> Single {
        if self.is_nan() || self.lt(other) {
            other
        } else {
            self
        }
    }

    /// The smaller of two, or the one that is a number.
    pub open spec fn smaller(self, other: Single) -> Single {
        if self.is_nan() || other.lt(self) {
            other
        } else {
            self
        }
    }

    /// The integer `whole` of a number of this sign, held between `low` and
    /// `high`. What is not a number becomes 0.
    pub open spec fn cast(self, whole: nat, low: int, high: int) -> int {
        if self.is_nan() {
            0
        } else if self.is_infinite() {
            if self.is_negative() {
                low
            } else {
                high
            }
        } else if self.is_negative() {
            held(-(whole as int), low, high)
        } else {
            held(whole as int, low, high)
        }
    }

    /// The number without its fraction, held between `low` and `high`.
    pub open spec fn truncated(self, low: int, high: int) -> int {
        self.cast(self.magnitude() / exp2(149), low, high)
    }

    /// The nearest integer, away from zero where two are equally near, held
    /// between `low` and `high`.
    pub open spec fn rounded(self, low: int, high: int) -> int {
        self.cast((2 * self.magnitude() + exp2(149)) / exp2(150), low, high)
    }
}

// ── Rounding ─────────────────────────────────────────────────────────────────

/// `m` times 2 to the power of `f`, as the numerator of a fraction whose
/// denominator is `below(d, f)`.
spec fn above(m: nat, f: int) -> nat {
    if f >= 0 {
        m * exp2(f as nat)
    } else {
        m
    }
}

spec fn below(d: nat, f: int) -> nat {
    if f >= 0 {
        d
    } else {
        d * exp2((-f) as nat)
    }
}

proof fn lemma_scaled(a: nat, b: nat, c: nat)
    requires
        0 < b,
        0 < c,
    ensures
        (a * c) / (b * c) == a / b,
        (a * c) % (b * c) == (a % b) * c,
        round_even(a * c, b * c) == round_even(a, b),
{
    let q = a / b;
    let r = a % b;
    lemma_fundamental_div_mod(a as int, b as int);
    assert(a * c == q * (b * c) + r * c) by (nonlinear_arith)
        requires
            a == b * q + r,
    ;
    assert(0 <= r * c < b * c) by (nonlinear_arith)
        requires
            0 <= r < b,
            0 < c,
    ;
    lemma_fundamental_div_mod_converse(
        (a * c) as int,
        (b * c) as int,
        q as int,
        (r * c) as int,
    );
    assert((2 * (r * c) > b * c) == (2 * r > b)) by (nonlinear_arith)
        requires
            0 < c,
    ;
    assert((2 * (r * c) == b * c) == (2 * r == b)) by (nonlinear_arith)
        requires
            0 < c,
    ;
}

proof fn lemma_excess(x: nat, k: nat)
    requires
        x < exp2(24 + k),
        k > 0 ==> x >= exp2((23 + k) as nat),
    ensures
        excess(x) == k,
    decreases k,
{
    single::lemma_exp2_numbers();
    if k > 0 {
        single::lemma_exp2_grows(24, (23 + k) as nat);
        assert(exp2(24) == 2 * exp2(23));
        assert(exp2(24 + k) == 2 * exp2((23 + k) as nat));
        assert(exp2((23 + k) as nat) == 2 * exp2((22 + k) as nat));
        lemma_excess(x / 2, (k - 1) as nat);
    } else {
        assert(exp2(24) == 2 * exp2(23));
    }
}

pub proof fn lemma_quotient_below(num: nat, den: nat, bound: nat)
    requires
        0 < den,
    ensures
        (num / den < bound) == (num < den * bound),
{
    let q = num / den;
    let r = num % den;
    lemma_fundamental_div_mod(num as int, den as int);
    if q < bound {
        assert(num < den * bound) by (nonlinear_arith)
            requires
                num == den * q + r,
                0 <= r < den,
                q + 1 <= bound,
        ;
    } else {
        assert(num >= den * bound) by (nonlinear_arith)
            requires
                num == den * q + r,
                0 <= r,
                q >= bound,
        ;
    }
}

/// The same fraction has the same nearest magnitude.
pub proof fn lemma_nearest_scaled(a: nat, b: nat, c: nat)
    requires
        0 < b,
        0 < c,
    ensures
        nearest_bits(a * c, b * c) == nearest_bits(a, b),
{
    lemma_scaled(a, b, c);
    let k = excess(a / b);
    single::lemma_exp2_grows(0, k);
    single::lemma_exp2_numbers();
    assert(0 < b * exp2(k)) by (nonlinear_arith)
        requires
            0 < b,
            0 < exp2(k),
    ;
    lemma_scaled(a, b * exp2(k), c);
    assert((b * c) * exp2(k) == (b * exp2(k)) * c) by (nonlinear_arith);
}

/// From exponent `e` down to `f`, both sides of the fraction grow by the same
/// factor.
proof fn lemma_exponents(m: nat, d: nat, e: int, f: int) -> (c: nat)
    requires
        f <= e,
    ensures
        0 < c,
        above(m, e) == above(m, f) * c,
        below(d, e) * exp2((e - f) as nat) == below(d, f) * c,
{
    single::lemma_exp2_numbers();
    if f >= 0 {
        let c = exp2((e - f) as nat);
        single::lemma_exp2_grows(0, (e - f) as nat);
        single::lemma_exp2_sum(f as nat, (e - f) as nat);
        assert(m * (exp2(f as nat) * c) == (m * exp2(f as nat)) * c) by (nonlinear_arith);
        c
    } else if e >= 0 {
        let c = exp2(e as nat);
        single::lemma_exp2_grows(0, e as nat);
        single::lemma_exp2_sum((-f) as nat, e as nat);
        assert(d * (exp2((-f) as nat) * c) == (d * exp2((-f) as nat)) * c) by (nonlinear_arith);
        c
    } else {
        single::lemma_exp2_sum((-e) as nat, (e - f) as nat);
        assert(d * (exp2((-e) as nat) * exp2((e - f) as nat)) == (d * exp2((-e) as nat)) * exp2(
            (e - f) as nat,
        )) by (nonlinear_arith);
        1
    }
}

/// Where `f` is the largest exponent up to `e` at which the quotient has no more
/// than 24 bits, the rounded quotient is the mantissa.
proof fn lemma_nearest_at(m: nat, d: nat, e: int, f: int)
    requires
        0 < d,
        f <= e,
        above(m, f) < below(d, f) * exp2(24),
        f < e ==> above(m, f + 1) >= below(d, f + 1) * exp2(24),
    ensures
        excess(above(m, e) / below(d, e)) == e - f,
        round_even(above(m, e), below(d, e) * exp2((e - f) as nat)) == round_even(
            above(m, f),
            below(d, f),
        ),
{
    single::lemma_exp2_numbers();
    let num = above(m, e);
    let den = below(d, e);
    let k = (e - f) as nat;
    lemma_below_positive(d, e);
    lemma_below_positive(d, f);
    let c = lemma_exponents(m, d, e, f);
    lemma_scaled(above(m, f), below(d, f), c);
    single::lemma_exp2_sum(24, k);
    assert(num < den * exp2(24 + k)) by (nonlinear_arith)
        requires
            num == above(m, f) * c,
            den * exp2(k) == below(d, f) * c,
            above(m, f) < below(d, f) * exp2(24),
            exp2(24 + k) == exp2(24) * exp2(k),
            0 < c,
    ;
    lemma_quotient_below(num, den, exp2(24 + k));
    if k > 0 {
        let j = (k - 1) as nat;
        let b = lemma_exponents(m, d, e, f + 1);
        single::lemma_exp2_sum(24, j);
        assert(num >= den * exp2(24 + j)) by (nonlinear_arith)
            requires
                num == above(m, f + 1) * b,
                den * exp2(j) == below(d, f + 1) * b,
                above(m, f + 1) >= below(d, f + 1) * exp2(24),
                exp2(24 + j) == exp2(24) * exp2(j),
                0 < b,
        ;
        lemma_quotient_below(num, den, exp2(24 + j));
    }
    lemma_excess(num / den, k);
}

proof fn lemma_below_positive(d: nat, f: int)
    requires
        0 < d,
    ensures
        0 < below(d, f),
{
    if f < 0 {
        single::lemma_exp2_numbers();
        single::lemma_exp2_grows(0, (-f) as nat);
        assert(0 < d * exp2((-f) as nat)) by (nonlinear_arith)
            requires
                0 < d,
                0 < exp2((-f) as nat),
        ;
    }
}

/// A fraction without a value is zero, and so is one of less than half of the
/// smallest positive number.
proof fn lemma_nearest_zero(m: nat, d: nat, e: int)
    requires
        0 < d,
        m == 0 || (e < 0 && 2 * m < exp2((-e) as nat)),
    ensures
        nearest_bits(above(m, e), below(d, e)) == 0,
{
    single::lemma_exp2_numbers();
    lemma_below_positive(d, e);
    let num = above(m, e);
    let den = below(d, e);
    if m == 0 {
        if e >= 0 {
            assert(m * exp2(e as nat) == 0) by (nonlinear_arith)
                requires
                    m == 0,
            ;
        }
        assert(2 * num < den);
    } else {
        let x = exp2((-e) as nat);
        assert(2 * m < d * x) by (nonlinear_arith)
            requires
                2 * m < x,
                0 < d,
        ;
    }
    vstd::arithmetic::div_mod::lemma_basic_div(num as int, den as int);
    vstd::arithmetic::div_mod::lemma_small_mod(num, den);
    assert(den * exp2(0) == den) by (nonlinear_arith)
        requires
            exp2(0) == 1,
    ;
}

proof fn lemma_pow2_is_exp2(n: nat)
    ensures
        pow2(n) == exp2(n),
    decreases n,
{
    if n == 0 {
        vstd::arithmetic::power2::lemma2_to64();
    } else {
        lemma_pow2_unfold(n);
        lemma_pow2_is_exp2((n - 1) as nat);
    }
}

/// 2 to the power of `n`.
fn power(n: u32) -> (res: u128)
    requires
        n <= 126,
    ensures
        res == exp2(n as nat),
{
    proof {
        single::lemma_exp2_numbers();
        single::lemma_exp2_sum(31, 32);
        single::lemma_exp2_sum(63, (n - 63) as nat);
    }
    if n <= 63 {
        small_power(n as u64) as u128
    } else {
        let low: u64 = small_power(63);
        let high: u64 = small_power((n - 63) as u64);
        assert(low * high <= 0xffff_ffff_ffff_ffff * 0xffff_ffff_ffff_ffff) by (nonlinear_arith)
            requires
                low <= 0xffff_ffff_ffff_ffff,
                high <= 0xffff_ffff_ffff_ffff,
        ;
        low as u128 * high as u128
    }
}

fn small_power(n: u64) -> (res: u64)
    requires
        n <= 63,
    ensures
        res == exp2(n as nat),
{
    proof {
        single::lemma_exp2_numbers();
        single::lemma_exp2_sum(31, 32);
        single::lemma_exp2_grows(n as nat, 63);
        lemma_pow2_is_exp2(n as nat);
        assert(1 * pow2(n as nat) == pow2(n as nat)) by (nonlinear_arith);
        vstd::bits::lemma_u64_shl_is_mul(1, n);
    }
    1u64 << n
}

/// The two sides of the fraction.
fn sides(m: u64, d: u32, f: i32) -> (res: (u128, u128))
    requires
        0 < d < 0x100_0000,
        -66 < f <= 48,
    ensures
        res.0 == above(m as nat, f as int),
        res.1 == below(d as nat, f as int),
        res.0 < 0x1_0000_0000_0000_0000_0000_0000_0000,
        0 < res.1 < 0x400_0000_0000_0000_0000_0000,
{
    proof {
        single::lemma_exp2_numbers();
        single::lemma_exp2_sum(8, 40);
        single::lemma_exp2_sum(32, 32);
        assert(exp2(65) == 2 * exp2(64));
        lemma_below_positive(d as nat, f as int);
    }
    if f >= 0 {
        let x: u128 = power(f as u32);
        proof {
            single::lemma_exp2_grows(f as nat, 48);
        }
        assert(m * x < 0x1_0000_0000_0000_0000_0000_0000_0000) by (nonlinear_arith)
            requires
                m < 0x1_0000_0000_0000_0000,
                x <= 0x1_0000_0000_0000,
        ;
        (m as u128 * x, d as u128)
    } else {
        let x: u128 = power((-f) as u32);
        proof {
            single::lemma_exp2_grows((-f) as nat, 65);
        }
        assert(d * x < 0x400_0000_0000_0000_0000_0000) by (nonlinear_arith)
            requires
                d < 0x100_0000,
                x <= 0x2_0000_0000_0000_0000,
        ;
        (m as u128, d as u128 * x)
    }
}

/// Whether the quotient has no more than 24 bits at exponent `f`.
fn fits(m: u64, d: u32, f: i32) -> (res: bool)
    requires
        0 < d < 0x100_0000,
        -66 < f <= 48,
    ensures
        res == (above(m as nat, f as int) < below(d as nat, f as int) * exp2(24)),
        f <= -40 ==> res,
        f == 48 && m > 0 ==> !res,
{
    let (num, den): (u128, u128) = sides(m, d, f);
    proof {
        single::lemma_exp2_numbers();
        assert(exp2(24) == 2 * exp2(23));
        single::lemma_exp2_sum(8, 40);
        if f <= -40 {
            single::lemma_exp2_grows(40, (-f) as nat);
            let x = exp2((-f) as nat);
            assert(d * x * 0x100_0000 >= 0x1_0000_0000_0000_0000) by (nonlinear_arith)
                requires
                    d >= 1,
                    x >= 0x100_0000_0000,
            ;
        }
        if f == 48 && m > 0 {
            assert(m * exp2(48) >= 0x1_0000_0000_0000) by (nonlinear_arith)
                requires
                    m >= 1,
                    exp2(48) == 0x1_0000_0000_0000,
            ;
        }
    }
    num < den * 0x100_0000
}

/// The encoding of the magnitude nearest to `m / d` times 2 to the power of `e`,
/// in multiples of 2 to the power of -149.
fn nearest(m: u64, d: u32, e: i32) -> (res: u32)
    requires
        0 < d < 0x100_0000,
        -1000 < e < 1000,
    ensures
        res == nearest_bits(above(m as nat, e as int), below(d as nat, e as int)),
        res <= 0x7f80_0000,
{
    proof {
        single::lemma_exp2_numbers();
    }
    if m == 0 || e <= -66 {
        proof {
            if e <= -66 {
                single::lemma_exp2_sum(32, 32);
                assert(exp2(66) == 2 * exp2(65) && exp2(65) == 2 * exp2(64));
                single::lemma_exp2_grows(66, (-e) as nat);
            }
            lemma_nearest_zero(m as nat, d as nat, e as int);
        }
        return 0;
    }
    let mut f: i32 = if e > 47 {
        47
    } else {
        e
    };
    while !fits(m, d, f)
        invariant
            0 < d < 0x100_0000,
            -66 < f <= 47,
            f <= e,
        ensures
            -66 < f <= 47,
            f <= e,
            above(m as nat, f as int) < below(d as nat, f as int) * exp2(24),
        decreases f + 66,
    {
        f = f - 8;
    }
    while f < e && fits(m, d, f + 1)
        invariant
            0 < m,
            0 < d < 0x100_0000,
            -66 < f <= 47,
            f <= e,
            above(m as nat, f as int) < below(d as nat, f as int) * exp2(24),
        decreases e - f,
    {
        f = f + 1;
    }
    let (num, den): (u128, u128) = sides(m, d, f);
    let q: u128 = num / den;
    let r: u128 = num % den;
    let rounded: u128 = if 2 * r > den || (2 * r == den && q % 2 == 1) {
        q + 1
    } else {
        q
    };
    proof {
        assert(rounded == round_even(num as nat, den as nat));
        lemma_nearest_at(m as nat, d as nat, e as int, f as int);
        lemma_quotient_below(num as nat, den as nat, exp2(24));
        assert(exp2(24) == 2 * exp2(23));
    }
    let b: u64 = (e - f) as u64 * 8388608 + rounded as u64;
    if b > 0x7f80_0000 {
        0x7f80_0000
    } else {
        b as u32
    }
}

// ── Operations ───────────────────────────────────────────────────────────────

fn signed(negative: bool, bits: u32) -> (res: Single)
    requires
        bits < 0x8000_0000,
    ensures
        res == with_sign(negative, bits as nat),
{
    if negative {
        Single { bits: 0x8000_0000 + bits }
    } else {
        Single { bits }
    }
}

impl Single {
    /// The mantissa and its unit.
    fn parts(self) -> (res: (u32, u32))
        requires
            self.is_finite(),
        ensures
            res.0 == self.mantissa(),
            res.1 == self.shift(),
            res.0 < 0x100_0000,
            res.1 <= 253,
            res.1 > 0 ==> res.0 >= 0x80_0000,
    {
        let field: u32 = self.bits / 8388608 % 256;
        let fraction: u32 = self.bits % 8388608;
        if field == 0 {
            (fraction, 0)
        } else {
            (fraction + 8388608, field - 1)
        }
    }

    fn negative_test(self) -> (res: bool)
        ensures
            res == self.is_negative(),
    {
        self.bits >= 0x8000_0000
    }

    /// `-self`.
    pub fn minus(self) -> (res: Single)
        ensures
            res == self.negated(),
    {
        signed(!self.negative_test(), self.bits % 0x8000_0000)
    }

    /// `self * other`.
    pub fn times(self, other: Single) -> (res: Single)
        ensures
            res == self.product(other),
    {
        let negative: bool = self.negative_test() != other.negative_test();
        if self.nan_test() || other.nan_test() {
            return Single { bits: 0x7fc0_0000 };
        }
        if self.infinite_test() || other.infinite_test() {
            proof {
                lemma_zero(self);
                lemma_zero(other);
            }
            if self.bits % 0x8000_0000 == 0 || other.bits % 0x8000_0000 == 0 {
                return Single { bits: 0x7fc0_0000 };
            }
            return signed(negative, 0x7f80_0000);
        }
        let (m, k): (u32, u32) = self.parts();
        let (n, l): (u32, u32) = other.parts();
        assert(m * n < 0x1_0000_0000_0000) by (nonlinear_arith)
            requires
                m < 0x100_0000,
                n < 0x100_0000,
        ;
        let p: u64 = m as u64 * n as u64;
        let e: i32 = (k + l) as i32 - 149;
        proof {
            lemma_product(m as nat, n as nat, k as nat, l as nat);
            assert(p == (m as nat) * (n as nat));
        }
        signed(negative, nearest(p, 1, e))
    }

    /// `self / other`.
    pub fn over(self, other: Single) -> (res: Single)
        ensures
            res == self.ratio(other),
    {
        let negative: bool = self.negative_test() != other.negative_test();
        if self.nan_test() || other.nan_test() {
            return Single { bits: 0x7fc0_0000 };
        }
        if self.infinite_test() {
            if other.infinite_test() {
                return Single { bits: 0x7fc0_0000 };
            }
            return signed(negative, 0x7f80_0000);
        }
        if other.infinite_test() {
            return signed(negative, 0);
        }
        proof {
            lemma_zero(self);
            lemma_zero(other);
        }
        if other.bits % 0x8000_0000 == 0 {
            if self.bits % 0x8000_0000 == 0 {
                return Single { bits: 0x7fc0_0000 };
            }
            return signed(negative, 0x7f80_0000);
        }
        let (m, k): (u32, u32) = self.parts();
        let (n, l): (u32, u32) = other.parts();
        proof {
            lemma_ratio(m as nat, n as nat, k as nat, l as nat);
        }
        signed(negative, nearest(m as u64, n, k as i32 - l as i32 + 149))
    }
}

/// A number is zero when its magnitude is encoded as zero.
proof fn lemma_zero(x: Single)
    ensures
        (x.magnitude() == 0) == (x.bits % 0x8000_0000 == 0),
        (x.mantissa() == 0) == (x.bits % 0x8000_0000 == 0),
{
    single::lemma_exp2_numbers();
    single::lemma_exp2_grows(0, x.shift());
    let m = x.mantissa();
    let u = exp2(x.shift());
    assert((m * u == 0) == (m == 0)) by (nonlinear_arith)
        requires
            u >= 1,
    ;
}

proof fn lemma_product(m: nat, n: nat, k: nat, l: nat)
    ensures
        nearest_bits((m * exp2(k)) * (n * exp2(l)), exp2(149)) == nearest_bits(
            above(m * n, k + l - 149),
            below(1, k + l - 149),
        ),
{
    single::lemma_exp2_numbers();
    let e = k + l - 149;
    let p = m * n;
    single::lemma_exp2_sum(k, l);
    assert((m * exp2(k)) * (n * exp2(l)) == p * exp2(k + l)) by (nonlinear_arith)
        requires
            p == m * n,
            exp2(k + l) == exp2(k) * exp2(l),
    ;
    lemma_below_positive(1, e);
    if e >= 0 {
        single::lemma_exp2_sum(e as nat, 149);
        single::lemma_exp2_grows(0, 149);
        assert(p * exp2(k + l) == (p * exp2(e as nat)) * exp2(149)) by (nonlinear_arith)
            requires
                exp2(k + l) == exp2(e as nat) * exp2(149),
        ;
        assert(1 * exp2(149) == exp2(149)) by (nonlinear_arith);
        lemma_nearest_scaled(p * exp2(e as nat), 1, exp2(149));
    } else {
        single::lemma_exp2_sum((-e) as nat, k + l);
        single::lemma_exp2_grows(0, k + l);
        let x = exp2((-e) as nat);
        assert(1 * x == x) by (nonlinear_arith);
        lemma_nearest_scaled(p, x, exp2(k + l));
    }
}

proof fn lemma_ratio(m: nat, n: nat, k: nat, l: nat)
    requires
        0 < n,
    ensures
        nearest_bits((m * exp2(k)) * exp2(149), n * exp2(l)) == nearest_bits(
            above(m, k - l + 149),
            below(n, k - l + 149),
        ),
{
    single::lemma_exp2_numbers();
    let e = k - l + 149;
    single::lemma_exp2_sum(k, 149);
    assert((m * exp2(k)) * exp2(149) == m * exp2(k + 149)) by (nonlinear_arith)
        requires
            exp2(k + 149) == exp2(k) * exp2(149),
    ;
    lemma_below_positive(n, e);
    if e >= 0 {
        single::lemma_exp2_sum(e as nat, l);
        single::lemma_exp2_grows(0, l);
        assert(m * exp2(k + 149) == (m * exp2(e as nat)) * exp2(l)) by (nonlinear_arith)
            requires
                exp2(k + 149) == exp2(e as nat) * exp2(l),
        ;
        lemma_nearest_scaled(m * exp2(e as nat), n, exp2(l));
    } else {
        single::lemma_exp2_sum((-e) as nat, k + 149);
        single::lemma_exp2_grows(0, k + 149);
        let x = exp2((-e) as nat);
        assert(n * exp2(l) == (n * x) * exp2(k + 149)) by (nonlinear_arith)
            requires
                exp2(l) == x * exp2(k + 149),
        ;
        lemma_nearest_scaled(m, n * x, exp2(k + 149));
    }
}

/// What lies close to a multiple of `u` rounds to that multiple.
proof fn lemma_round_close(q: nat, u: nat, near: nat, n: nat)
    requires
        2 * n < u,
        near == q * u + n || near == q * u - n,
    ensures
        round_even(near, u) == q,
{
    if near == q * u + n {
        lemma_fundamental_div_mod_converse(near as int, u as int, q as int, n as int);
    } else {
        assert((q - 1) * u == q * u - u) by (nonlinear_arith);
        lemma_fundamental_div_mod_converse(near as int, u as int, q - 1, u - n);
    }
}

/// A number absorbs one whose unit is much smaller.
proof fn lemma_absorbed(m: nat, n: nat, g: nat, l: nat, near: nat)
    requires
        0x80_0000 <= m < 0x100_0000,
        n < 0x100_0000,
        g > 38,
        g + l <= 253,
        near == m * exp2(g) + n || near == m * exp2(g) - n,
    ensures
        near > 0,
        nearest_bits(near * exp2(l), 1) == (g + l) * 8388608 + m,
{
    single::lemma_exp2_numbers();
    assert(exp2(24) == 2 * exp2(23));
    let u = exp2(g);
    let h = exp2((g - 1) as nat);
    let t = exp2((g - 2) as nat);
    assert(u == 2 * h && h == 2 * t);
    single::lemma_exp2_grows(37, (g - 2) as nat);
    single::lemma_exp2_grows(31, 37);
    assert(m * u >= 0x80_0000 * u) by (nonlinear_arith)
        requires
            m >= 0x80_0000,
    ;
    assert(m * u <= 0xff_ffff * u) by (nonlinear_arith)
        requires
            m <= 0xff_ffff,
    ;
    assert(1 * u == u && 1 * h == h && 1 * t == t) by (nonlinear_arith);
    assert(near * exp2(l) / 1 == near * exp2(l));
    if near >= 0x80_0000 * u {
        lemma_nearest_at(near, 1, l as int, l - (g + l));
        lemma_round_close(m, u, near, n);
    } else {
        assert(m == 0x80_0000) by (nonlinear_arith)
            requires
                m >= 0x80_0000,
                near < 0x80_0000 * u,
                near >= m * u - n,
                n < u,
                u > 0,
        ;
        lemma_nearest_at(near, 1, l as int, l - (g + l - 1));
        assert(near == 0x100_0000 * h - n) by (nonlinear_arith)
            requires
                near == m * u - n,
                m == 0x80_0000,
                u == 2 * h,
        ;
        lemma_round_close(0x100_0000, h, near, n);
    }
}

/// The sum of two finite numbers, of which the first has the larger unit.
#[verifier::rlimit(40)]
fn sum_by_unit(a: Single, b: Single) -> (res: Single)
    requires
        a.is_finite(),
        b.is_finite(),
        a.shift() >= b.shift(),
    ensures
        res == a.sum(b),
        res == b.sum(a),
{
    let (m, k): (u32, u32) = a.parts();
    let (n, l): (u32, u32) = b.parts();
    let g: u32 = k - l;
    let negative: bool = a.negative_test();
    let opposite: bool = negative != b.negative_test();
    proof {
        single::lemma_exp2_numbers();
        single::lemma_exp2_sum(g as nat, l as nat);
        single::lemma_exp2_grows(0, l as nat);
        assert(m * exp2(k as nat) == (m * exp2(g as nat)) * exp2(l as nat)) by (nonlinear_arith)
            requires
                exp2(k as nat) == exp2(g as nat) * exp2(l as nat),
        ;
    }
    if g > 38 {
        proof {
            single::lemma_exp2_grows(31, g as nat);
            let big = (m as nat) * exp2(g as nat);
            let near: nat = if opposite {
                (big - n) as nat
            } else {
                big + n as nat
            };
            assert(big > n) by (nonlinear_arith)
                requires
                    big == (m as nat) * exp2(g as nat),
                    m >= 0x80_0000,
                    n < 0x100_0000,
                    exp2(g as nat) >= 0x8000_0000,
            ;
            lemma_absorbed(m as nat, n as nat, g as nat, l as nat, near);
            lemma_signed_sum(a, b, big, n as nat, l as nat);
        }
        return a;
    }
    let x: u64 = small_power(g as u64);
    proof {
        single::lemma_exp2_grows(g as nat, 38);
        assert(exp2(40) == 2 * exp2(39) && exp2(39) == 2 * exp2(38));
    }
    assert(m * x < 0x4000_0000_0000_0000) by (nonlinear_arith)
        requires
            m < 0x100_0000,
            x <= 0x40_0000_0000,
    ;
    let big: u64 = m as u64 * x;
    proof {
        lemma_signed_sum(a, b, big as nat, n as nat, l as nat);
    }
    if !opposite {
        signed(negative, nearest(big + n as u64, 1, l as i32))
    } else if big == n as u64 {
        Single { bits: 0 }
    } else if big > n as u64 {
        signed(negative, nearest(big - n as u64, 1, l as i32))
    } else {
        signed(!negative, nearest(n as u64 - big, 1, l as i32))
    }
}

/// The sum of two numbers whose magnitudes are `big` and `small` units.
proof fn lemma_signed_sum(a: Single, b: Single, big: nat, small: nat, l: nat)
    requires
        a.is_finite(),
        b.is_finite(),
        a.magnitude() == big * exp2(l),
        b.magnitude() == small * exp2(l),
    ensures
        a.sum(b) == b.sum(a),
        a.is_negative() == b.is_negative() ==> a.sum(b) == with_sign(
            a.is_negative(),
            nearest_bits((big + small) * exp2(l), 1),
        ),
        a.is_negative() != b.is_negative() && big == small ==> a.sum(b) == zero(false),
        a.is_negative() != b.is_negative() && big > small ==> a.sum(b) == with_sign(
            a.is_negative(),
            nearest_bits(((big - small) as nat) * exp2(l), 1),
        ),
        a.is_negative() != b.is_negative() && big < small ==> a.sum(b) == with_sign(
            b.is_negative(),
            nearest_bits(((small - big) as nat) * exp2(l), 1),
        ),
{
    single::lemma_exp2_numbers();
    single::lemma_exp2_grows(0, l);
    let u = exp2(l);
    assert((big + small) * u == big * u + small * u) by (nonlinear_arith);
    assert((big - small) * u == big * u - small * u) by (nonlinear_arith);
    assert((small - big) * u == small * u - big * u) by (nonlinear_arith);
    assert(big > small ==> (big - small) * u > 0) by (nonlinear_arith)
        requires
            u >= 1,
    ;
    assert(big < small ==> (small - big) * u > 0) by (nonlinear_arith)
        requires
            u >= 1,
    ;
    assert(big + small == 0 ==> (big + small) * u == 0) by (nonlinear_arith);
    assert(big + small > 0 ==> (big + small) * u > 0) by (nonlinear_arith)
        requires
            u >= 1,
    ;
    lemma_nearest_zero(0, 1, 0);
    assert(0 * exp2(0) == 0);
}

impl Single {
    /// `self + other`.
    pub fn plus(self, other: Single) -> (res: Single)
        ensures
            res == self.sum(other),
    {
        if self.nan_test() || other.nan_test() {
            return Single { bits: 0x7fc0_0000 };
        }
        if self.infinite_test() {
            if other.infinite_test() && self.negative_test() != other.negative_test() {
                return Single { bits: 0x7fc0_0000 };
            }
            return self;
        }
        if other.infinite_test() {
            return other;
        }
        let (_, k): (u32, u32) = self.parts();
        let (_, l): (u32, u32) = other.parts();
        if k >= l {
            sum_by_unit(self, other)
        } else {
            sum_by_unit(other, self)
        }
    }
}

impl Single {
    /// The number nearest to a whole number.
    pub fn count(n: u64) -> (res: Single)
        ensures
            res == counted(n as nat),
    {
        signed(false, nearest(n, 1, 149))
    }

    /// Tests `self < other`.
    pub fn below(self, other: Single) -> (res: bool)
        ensures
            res == self.lt(other),
    {
        !self.nan_test() && !other.nan_test() && self.sort_key() < other.sort_key()
    }

    /// Holds the number between `low` and `high`.
    pub fn clamp(self, low: Single, high: Single) -> (res: Single)
        ensures
            res == self.clamped(low, high),
    {
        if self.below(low) {
            low
        } else if high.below(self) {
            high
        } else {
            self
        }
    }

    /// The larger of two, or the one that is a number.
    pub fn max(self, other: Single) -> (res: Single)
        ensures
            res == self.larger(other),
    {
        if self.nan_test() || self.below(other) {
            other
        } else {
            self
        }
    }

    /// The smaller of two, or the one that is a number.
    pub fn min(self, other: Single) -> (res: Single)
        ensures
            res == self.smaller(other),
    {
        if self.nan_test() || other.below(self) {
            other
        } else {
            self
        }
    }

    /// The number without its fraction, held between `low` and `high`.
    pub fn truncate(self, low: i64, high: i64) -> (res: i64)
        requires
            low <= high,
        ensures
            res == self.truncated(low as int, high as int),
    {
        if self.nan_test() {
            return 0;
        }
        let whole: u64 = if self.infinite_test() {
            0
        } else {
            self.whole_magnitude(false)
        };
        self.hold(whole, low, high)
    }

    /// The nearest integer, held between `low` and `high`.
    pub fn round(self, low: i64, high: i64) -> (res: i64)
        requires
            low <= high,
        ensures
            res == self.rounded(low as int, high as int),
    {
        if self.nan_test() {
            return 0;
        }
        let whole: u64 = if self.infinite_test() {
            0
        } else {
            self.whole_magnitude(true)
        };
        self.hold(whole, low, high)
    }

    fn hold(self, whole: u64, low: i64, high: i64) -> (res: i64)
        requires
            !self.is_nan(),
            whole <= 0x8000_0000_0000_0000,
            low <= high,
        ensures
            res == self.cast(whole as nat, low as int, high as int),
            whole == 0x8000_0000_0000_0000 ==> forall|w: nat|
                w >= whole ==> res == #[trigger] self.cast(w, low as int, high as int),
    {
        let negative: bool = self.negative_test();
        let v: i128 = if negative {
            -(whole as i128)
        } else {
            whole as i128
        };
        if self.infinite_test() {
            if negative {
                low
            } else {
                high
            }
        } else if v < low as i128 {
            low
        } else if v > high as i128 {
            high
        } else {
            v as i64
        }
    }

    /// The magnitude without its fraction, or its nearest integer, up to 2 to the
    /// power of 63.
    fn whole_magnitude(self, to_nearest: bool) -> (res: u64)
        requires
            self.is_finite(),
        ensures
            res <= 0x8000_0000_0000_0000,
            ({
                let whole = if to_nearest {
                    (2 * self.magnitude() + exp2(149)) / exp2(150)
                } else {
                    self.magnitude() / exp2(149)
                };
                if whole > 0x8000_0000_0000_0000 {
                    res == 0x8000_0000_0000_0000
                } else {
                    res == whole
                }
            }),
    {
        let (m, k): (u32, u32) = self.parts();
        if k >= 149 {
            let s: u32 = k - 149;
            proof {
                lemma_large_whole(m as nat, k as nat);
                single::lemma_exp2_numbers();
            }
            if s >= 40 {
                proof {
                    single::lemma_exp2_grows(40, s as nat);
                    assert(m * exp2(s as nat) >= 0x80_0000 * 0x100_0000_0000) by (nonlinear_arith)
                        requires
                            m >= 0x80_0000,
                            exp2(s as nat) >= 0x100_0000_0000,
                    ;
                }
                return 0x8000_0000_0000_0000;
            }
            let x: u64 = small_power(s as u64);
            proof {
                single::lemma_exp2_grows(s as nat, 39);
                assert(exp2(40) == 2 * exp2(39));
                assert(m * x <= 0x100_0000 * 0x80_0000_0000) by (nonlinear_arith)
                    requires
                        m <= 0x100_0000,
                        x <= 0x80_0000_0000,
                ;
            }
            m as u64 * x
        } else {
            let t: u32 = 149 - k;
            proof {
                lemma_small_whole(m as nat, k as nat);
            }
            if t > 40 {
                proof {
                    lemma_no_whole(m as nat, t as nat);
                }
                return 0;
            }
            let x: u64 = small_power(t as u64);
            let half: u64 = small_power((t - 1) as u64);
            proof {
                single::lemma_exp2_numbers();
                single::lemma_exp2_grows(t as nat, 40);
                single::lemma_exp2_grows((t - 1) as nat, 40);
                single::lemma_exp2_grows(0, t as nat);
            }
            let n: u64 = if to_nearest {
                m as u64 + half
            } else {
                m as u64
            };
            assert(n / x <= n) by (nonlinear_arith)
                requires
                    x >= 1,
            ;
            n / x
        }
    }
}

impl Single {
    /// The magnitude in steps of one part in `factor`, to the nearest and to the
    /// even one of two: the whole part and the steps beyond it.
    pub fn steps(self, factor: u32) -> (res: (u128, u32))
        requires
            self.is_finite(),
            0 < factor <= 100,
        ensures
            res.0 == round_even(self.magnitude() * factor as nat, exp2(149)) / factor as nat,
            res.1 == round_even(self.magnitude() * factor as nat, exp2(149)) % factor as nat,
    {
        let (m, k): (u32, u32) = self.parts();
        if k >= 149 {
            let s: u32 = k - 149;
            let x: u128 = power(s);
            proof {
                single::lemma_exp2_numbers();
                single::lemma_exp2_grows(s as nat, 104);
                single::lemma_exp2_sum(32, 32);
                single::lemma_exp2_sum(64, 40);
                assert(m * x < 0x1_0000_0000_0000_0000 * 0x1_0000_0000_0000_0000) by (
                nonlinear_arith)
                    requires
                        m < 0x100_0000,
                        x <= 0x1_0000_0000_0000_0000 * 0x100_0000_0000,
                ;
                lemma_large_steps(m as nat, k as nat, factor as nat);
            }
            (m as u128 * x, 0)
        } else {
            let t: u32 = 149 - k;
            assert(m * factor < 0x100_0000 * 100) by (nonlinear_arith)
                requires
                    m < 0x100_0000,
                    0 < factor <= 100,
            ;
            let n: u64 = m as u64 * factor as u64;
            proof {
                lemma_small_steps(m as nat, k as nat, factor as nat);
                assert(n == (m as nat) * (factor as nat));
                single::lemma_exp2_numbers();
            }
            if t > 40 {
                proof {
                    single::lemma_exp2_grows(40, t as nat);
                    lemma_round_close(0, exp2(t as nat), n as nat, n as nat);
                }
                return (0, 0);
            }
            let x: u64 = small_power(t as u64);
            proof {
                single::lemma_exp2_grows(t as nat, 40);
                single::lemma_exp2_grows(0, t as nat);
                assert(n / x <= n) by (nonlinear_arith)
                    requires
                        x >= 1,
                ;
            }
            let q: u64 = n / x;
            let r: u64 = n % x;
            let rounded: u64 = if 2 * r > x || (2 * r == x && q % 2 == 1) {
                q + 1
            } else {
                q
            };
            ((rounded / factor as u64) as u128, (rounded % factor as u64) as u32)
        }
    }
}

proof fn lemma_large_steps(m: nat, k: nat, factor: nat)
    requires
        k >= 149,
        0 < factor,
    ensures
        round_even((m * exp2(k)) * factor, exp2(149)) == (m * exp2((k - 149) as nat)) * factor,
        (m * exp2((k - 149) as nat)) * factor / factor == m * exp2((k - 149) as nat),
        (m * exp2((k - 149) as nat)) * factor % factor == 0,
{
    let w = m * exp2((k - 149) as nat);
    let u = exp2(149);
    single::lemma_exp2_numbers();
    single::lemma_exp2_sum((k - 149) as nat, 149);
    single::lemma_exp2_grows(0, 149);
    assert((m * exp2(k)) * factor == (w * factor) * u) by (nonlinear_arith)
        requires
            w == m * exp2((k - 149) as nat),
            exp2(k) == exp2((k - 149) as nat) * u,
    ;
    lemma_round_close(w * factor, u, (w * factor) * u, 0);
    lemma_fundamental_div_mod_converse((w * factor) as int, factor as int, w as int, 0);
}

proof fn lemma_small_steps(m: nat, k: nat, factor: nat)
    requires
        k < 149,
    ensures
        round_even((m * exp2(k)) * factor, exp2(149)) == round_even(
            m * factor,
            exp2((149 - k) as nat),
        ),
{
    let x = exp2((149 - k) as nat);
    let u = exp2(k);
    single::lemma_exp2_numbers();
    single::lemma_exp2_sum((149 - k) as nat, k);
    single::lemma_exp2_grows(0, k);
    single::lemma_exp2_grows(0, (149 - k) as nat);
    assert((m * u) * factor == (m * factor) * u) by (nonlinear_arith);
    lemma_scaled(m * factor, x, u);
}

proof fn lemma_large_whole(m: nat, k: nat)
    requires
        k >= 149,
    ensures
        (m * exp2(k)) / exp2(149) == m * exp2((k - 149) as nat),
        (2 * (m * exp2(k)) + exp2(149)) / exp2(150) == m * exp2((k - 149) as nat),
{
    single::lemma_exp2_numbers();
    let w = m * exp2((k - 149) as nat);
    let u = exp2(149);
    single::lemma_exp2_sum((k - 149) as nat, 149);
    single::lemma_exp2_grows(0, 149);
    assert(exp2(150) == 2 * u);
    assert(m * exp2(k) == w * u) by (nonlinear_arith)
        requires
            w == m * exp2((k - 149) as nat),
            exp2(k) == exp2((k - 149) as nat) * u,
    ;
    lemma_fundamental_div_mod_converse((m * exp2(k)) as int, u as int, w as int, 0);
    assert(2 * (w * u) + u == w * (2 * u) + u) by (nonlinear_arith);
    lemma_fundamental_div_mod_converse(
        (2 * (m * exp2(k)) + u) as int,
        (2 * u) as int,
        w as int,
        u as int,
    );
}

proof fn lemma_small_whole(m: nat, k: nat)
    requires
        k < 149,
    ensures
        (m * exp2(k)) / exp2(149) == m / exp2((149 - k) as nat),
        (2 * (m * exp2(k)) + exp2(149)) / exp2(150) == (m + exp2((148 - k) as nat)) / exp2(
            (149 - k) as nat,
        ),
{
    single::lemma_exp2_numbers();
    let x = exp2((149 - k) as nat);
    let h = exp2((148 - k) as nat);
    let u = exp2(k);
    assert(x == 2 * h);
    single::lemma_exp2_sum((149 - k) as nat, k);
    single::lemma_exp2_grows(0, k);
    single::lemma_exp2_grows(0, (149 - k) as nat);
    assert(exp2(150) == 2 * exp2(149));
    lemma_scaled(m, x, u);
    lemma_scaled(m + h, x, 2 * u);
    assert((m + h) * (2 * u) == 2 * (m * u) + x * u) by (nonlinear_arith)
        requires
            x == 2 * h,
    ;
    assert(x * (2 * u) == 2 * (x * u)) by (nonlinear_arith);
}

proof fn lemma_no_whole(m: nat, t: nat)
    requires
        m < 0x100_0000,
        t > 40,
    ensures
        m / exp2(t) == 0,
        (m + exp2((t - 1) as nat)) / exp2(t) == 0,
{
    single::lemma_exp2_numbers();
    let h = exp2((t - 1) as nat);
    assert(exp2(t) == 2 * h);
    single::lemma_exp2_grows(40, (t - 1) as nat);
    vstd::arithmetic::div_mod::lemma_basic_div(m as int, exp2(t) as int);
    vstd::arithmetic::div_mod::lemma_basic_div((m + h) as int, exp2(t) as int);
}

// ── Order of results ─────────────────────────────────────────────────────────

/// A magnitude that has an encoding is its own nearest magnitude.
proof fn lemma_exact(m: nat, k: nat)
    requires
        m < 0x100_0000,
        k > 0 ==> m >= 0x80_0000,
        k <= 253,
    ensures
        nearest_bits(m * exp2(k), 1) == k * 8388608 + m,
{
    single::lemma_exp2_numbers();
    assert(exp2(24) == 2 * exp2(23) && exp2(1) == 2 * exp2(0));
    assert(m * exp2(0) == m && m * exp2(1) == 2 * m) by (nonlinear_arith)
        requires
            exp2(0) == 1,
            exp2(1) == 2,
    ;
    lemma_nearest_at(m, 1, k as int, 0);
    assert(m * exp2(k) / 1 == m * exp2(k));
}

/// A finite number is the nearest to its own value.
pub proof fn lemma_own_nearest(x: Single)
    requires
        x.is_finite(),
    ensures
        nearest_bits(x.magnitude(), 1) == x.bits % 0x8000_0000,
{
    lemma_exact(x.mantissa(), x.shift());
}

proof fn lemma_excess_bounds(x: nat)
    ensures
        x < exp2(24 + excess(x)),
        excess(x) > 0 ==> x >= exp2((23 + excess(x)) as nat),
    decreases x,
{
    single::lemma_exp2_numbers();
    assert(exp2(24) == 2 * exp2(23));
    if x >= 16777216 {
        let k = excess(x / 2);
        lemma_excess_bounds(x / 2);
        assert(exp2(24 + (k + 1)) == 2 * exp2(24 + k));
        assert(exp2((23 + (k + 1)) as nat) == 2 * exp2(23 + k));
    }
}

proof fn lemma_round_even_order(a: nat, b: nat, c: nat, d: nat)
    requires
        0 < b,
        0 < d,
        a * d <= c * b,
    ensures
        round_even(a, b) <= round_even(c, d),
{
    let q = a / b;
    let r = a % b;
    let p = c / d;
    let s = c % d;
    lemma_fundamental_div_mod(a as int, b as int);
    lemma_fundamental_div_mod(c as int, d as int);
    assert(q <= p) by (nonlinear_arith)
        requires
            a == b * q + r,
            c == d * p + s,
            0 <= r,
            0 <= s < d,
            0 < b,
            0 < d,
            a * d <= c * b,
    ;
    if q == p {
        assert(r * d <= s * b) by (nonlinear_arith)
            requires
                a == b * q + r,
                c == d * q + s,
                a * d <= c * b,
        ;
        assert(2 * r > b ==> 2 * s > d) by (nonlinear_arith)
            requires
                r * d <= s * b,
                0 < b,
                0 < d,
        ;
        assert(2 * r == b ==> 2 * s >= d) by (nonlinear_arith)
            requires
                r * d <= s * b,
                0 < b,
                0 < d,
        ;
    }
}

/// Of two fractions, the larger has no smaller nearest magnitude.
pub proof fn lemma_nearest_order(a: nat, b: nat, c: nat, d: nat)
    requires
        0 < b,
        0 < d,
        a * d <= c * b,
    ensures
        nearest_bits(a, b) <= nearest_bits(c, d),
{
    single::lemma_exp2_numbers();
    let x = a / b;
    let y = c / d;
    lemma_fundamental_div_mod(a as int, b as int);
    lemma_fundamental_div_mod(c as int, d as int);
    assert(x <= y) by (nonlinear_arith)
        requires
            a == b * x + a % b,
            c == d * y + c % d,
            0 <= a % b,
            0 <= c % d < d,
            0 < b,
            0 < d,
            a * d <= c * b,
    ;
    let k = excess(x);
    let l = excess(y);
    lemma_excess_bounds(x);
    lemma_excess_bounds(y);
    lemma_excess_order(x, y);
    let u = exp2(k);
    let v = exp2(l);
    single::lemma_exp2_grows(0, k);
    single::lemma_exp2_grows(0, l);
    assert(0 < b * u && 0 < d * v) by (nonlinear_arith)
        requires
            0 < b,
            0 < d,
            0 < u,
            0 < v,
    ;
    if k == l {
        assert(a * (d * v) <= c * (b * u)) by (nonlinear_arith)
            requires
                a * d <= c * b,
                u == v,
        ;
        lemma_round_even_order(a, b * u, c, d * v);
    } else {
        // The smaller rounds to at most 2 to the power of 24, the larger to at
        // least 2 to the power of 23.
        single::lemma_exp2_sum(24, k);
        single::lemma_exp2_sum(23, l);
        assert(exp2(24) == 2 * exp2(23));
        lemma_quotient_below(a, b, exp2(24 + k));
        assert(a * 1 <= 0x100_0000 * (b * u)) by (nonlinear_arith)
            requires
                a < b * exp2(24 + k),
                exp2(24 + k) == 0x100_0000 * u,
        ;
        lemma_round_even_order(a, b * u, 0x100_0000, 1);
        lemma_quotient_below(c, d, exp2(23 + l));
        assert(0x80_0000 * (d * v) <= c * 1) by (nonlinear_arith)
            requires
                c >= d * exp2(23 + l),
                exp2(23 + l) == 0x80_0000 * v,
        ;
        lemma_round_even_order(0x80_0000, 1, c, d * v);
    }
}

proof fn lemma_excess_order(x: nat, y: nat)
    requires
        x <= y,
    ensures
        excess(x) <= excess(y),
    decreases x,
{
    if x >= 16777216 {
        lemma_excess_order(x / 2, y / 2);
    }
}

/// The sign has no part in the magnitude.
proof fn lemma_fields(x: Single)
    ensures
        x.exponent_field() == x.bits % 0x8000_0000 / 8388608,
        x.fraction_field() == x.bits % 0x8000_0000 % 8388608,
{
    let b = x.bits % 0x8000_0000;
    assert(x.bits == b || x.bits == b + 0x8000_0000);
}

/// Larger encodings have larger magnitudes.
#[verifier::rlimit(40)]
pub proof fn lemma_magnitude_order(x: Single, y: Single)
    requires
        x.is_finite(),
        y.is_finite(),
    ensures
        (x.bits % 0x8000_0000 <= y.bits % 0x8000_0000) == (x.magnitude() <= y.magnitude()),
{
    let a = x.magnitude();
    let b = y.magnitude();
    let i = x.bits % 0x8000_0000;
    let j = y.bits % 0x8000_0000;
    assert(nearest_bits(a, 1) == i) by {
        lemma_own_nearest(x);
    }
    assert(nearest_bits(b, 1) == j) by {
        lemma_own_nearest(y);
    }
    if a <= b {
        lemma_nearest_order(a, 1, b, 1);
    } else {
        lemma_nearest_order(b, 1, a, 1);
        if i == j {
            lemma_fields(x);
            lemma_fields(y);
            assert(a == b);
        }
    }
}

/// Numbers are ordered by their values.
pub proof fn law_order_is_by_value(x: Single, y: Single)
    requires
        x.is_finite(),
        y.is_finite(),
    ensures
        x.le(y) == (x.value() <= y.value()),
        x.same(y) == (x.value() == y.value()),
{
    lemma_magnitude_order(x, y);
    lemma_magnitude_order(y, x);
    lemma_zero(x);
    lemma_zero(y);
}

/// The number with this mantissa and unit.
proof fn lemma_encoded(m: nat, k: nat, negative: bool)
    requires
        m < 0x100_0000,
        k > 0 ==> m >= 0x80_0000,
        k <= 253,
    ensures
        ({
            let x = with_sign(negative, k * 8388608 + m);
            &&& x.is_finite()
            &&& x.is_negative() == negative
            &&& x.magnitude() == m * exp2(k)
            &&& x.bits % 0x8000_0000 == k * 8388608 + m
        }),
{
    let b = k * 8388608 + m;
    let x = with_sign(negative, b);
    assert(b < 0x7f80_0000);
    lemma_fields(x);
    if m >= 0x80_0000 {
        assert(b / 8388608 == k + 1 && b % 8388608 == m - 8388608);
    } else {
        assert(b / 8388608 == 0 && b % 8388608 == m);
    }
}

proof fn lemma_normal(n: nat) -> (s: nat)
    requires
        0 < n < 0x100_0000,
    ensures
        s <= 23,
        0x80_0000 <= n * exp2(s) < 0x100_0000,
        n >= exp2((23 - s) as nat),
    decreases 0x100_0000 - n,
{
    single::lemma_exp2_numbers();
    if n >= 0x80_0000 {
        assert(n * exp2(0) == n) by (nonlinear_arith)
            requires
                exp2(0) == 1,
        ;
        0
    } else {
        let t = lemma_normal(2 * n);
        assert(exp2(t + 1) == 2 * exp2(t));
        assert(n * (2 * exp2(t)) == (2 * n) * exp2(t)) by (nonlinear_arith);
        if t == 23 {
            assert(exp2(0) == 1);
            assert((2 * n) * exp2(23) >= 0x100_0000) by (nonlinear_arith)
                requires
                    n >= 1,
                    exp2(23) == 0x80_0000,
            ;
        } else {
            assert(exp2((23 - t) as nat) == 2 * exp2((22 - t) as nat));
        }
        t + 1
    }
}

/// A whole number of up to 24 bits is held exactly.
pub proof fn law_whole_numbers_are_exact(n: nat, negative: bool)
    requires
        n < 0x100_0000,
    ensures
        ({
            let x = with_sign(negative, nearest_bits(n * exp2(149), 1));
            &&& x.is_finite()
            &&& x.is_negative() == negative
            &&& x.magnitude() == n * exp2(149)
            &&& x.bits % 0x8000_0000 == nearest_bits(n * exp2(149), 1)
        }),
{
    single::lemma_exp2_numbers();
    if n == 0 {
        assert(n * exp2(149) == 0 && 0 * exp2(0) == 0) by (nonlinear_arith)
            requires
                n == 0,
        ;
        lemma_exact(0, 0);
        lemma_encoded(0, 0, negative);
    } else {
        let s = lemma_normal(n);
        let m = n * exp2(s);
        let k = (149 - s) as nat;
        single::lemma_exp2_sum(s, k);
        assert(m * exp2(k) == n * exp2(149)) by (nonlinear_arith)
            requires
                m == n * exp2(s),
                exp2(149) == exp2(s) * exp2(k),
        ;
        lemma_exact(m, k);
        lemma_encoded(m, k, negative);
    }
}

/// A whole number of up to 24 bits, as a quotient and as a count.
pub proof fn lemma_whole_is_counted(n: nat)
    requires
        n < 0x100_0000,
    ensures
        single::whole_single(n) == counted(n),
{
    single::lemma_exp2_numbers();
    if n == 0 {
        assert(n * exp2(149) == 0 && 0 * exp2(0) == 0) by (nonlinear_arith)
            requires
                n == 0,
        ;
        lemma_exact(0, 0);
    } else {
        single::lemma_whole_bits(n);
        let s = single::doublings(n, 1);
        let m = n * exp2(s);
        let k = (149 - s) as nat;
        single::lemma_exp2_sum(s, k);
        assert(m * exp2(k) == n * exp2(149)) by (nonlinear_arith)
            requires
                m == n * exp2(s),
                exp2(149) == exp2(s) * exp2(k),
        ;
        lemma_exact(m, k);
    }
}

/// The negative of a number.
pub proof fn lemma_negated(x: Single)
    requires
        x.is_finite(),
    ensures
        x.negated().is_finite(),
        x.negated().is_negative() == !x.is_negative(),
        x.negated().magnitude() == x.magnitude(),
        x.negated().value() == -x.value(),
{
    lemma_fields(x);
    lemma_fields(x.negated());
}

/// A sum lies between numbers that its exact value lies between.
#[verifier::rlimit(40)]
pub proof fn law_sum_keeps_order(x: Single, y: Single, low: Single, high: Single)
    requires
        x.is_finite(),
        y.is_finite(),
        low.is_finite(),
        high.is_finite(),
        low.value() <= x.value() + y.value() <= high.value(),
    ensures
        x.sum(y).is_finite(),
        low.value() <= x.sum(y).value() <= high.value(),
{
    let v = x.value() + y.value();
    let r = x.sum(y);
    if v == 0 {
        lemma_encoded_zero(x.is_negative() && y.is_negative());
    } else if v > 0 {
        lemma_nearest_between(v as nat, 1, low, high, false);
        assert(r.value() == r.magnitude());
    } else {
        let l = high.negated();
        let h = low.negated();
        assert(l.is_finite() && l.value() == -high.value()) by {
            lemma_negated(high);
        }
        assert(h.is_finite() && h.value() == -low.value()) by {
            lemma_negated(low);
        }
        lemma_nearest_between((-v) as nat, 1, l, h, true);
        assert(r.value() == -(r.magnitude() as int));
    }
}

proof fn lemma_encoded_zero(negative: bool)
    ensures
        zero(negative).is_finite(),
        zero(negative).magnitude() == 0,
        zero(negative).value() == 0,
{
    lemma_encoded(0, 0, negative);
    assert(0 * exp2(0) == 0);
}

/// The nearest magnitude to `num / den` lies between the values `low` and `high`
/// that the fraction lies between.
#[verifier::rlimit(40)]
proof fn lemma_nearest_between(num: nat, den: nat, low: Single, high: Single, negative: bool)
    requires
        0 < den,
        low.is_finite(),
        high.is_finite(),
        low.value() * den <= num <= high.value() * den,
    ensures
        with_sign(negative, nearest_bits(num, den)).is_finite(),
        with_sign(negative, nearest_bits(num, den)).is_negative() == negative,
        low.value() <= with_sign(negative, nearest_bits(num, den)).magnitude() <= high.value(),
{
    let bits = nearest_bits(num, den);
    let r = with_sign(negative, bits);
    assert(high.value() >= 0) by (nonlinear_arith)
        requires
            high.value() * den >= 0,
            den > 0,
    ;
    lemma_nearest_at_most(num, den, high);
    lemma_signed_bits(negative, bits);
    lemma_magnitude_order(r, high);
    if low.value() > 0 {
        lemma_nearest_at_least(num, den, low);
        lemma_magnitude_order(low, r);
    }
}

proof fn lemma_nearest_at_most(num: nat, den: nat, high: Single)
    requires
        0 < den,
        high.is_finite(),
        num <= high.magnitude() * den,
    ensures
        nearest_bits(num, den) <= high.bits % 0x8000_0000,
{
    let h = high.magnitude();
    assert(nearest_bits(h, 1) == high.bits % 0x8000_0000) by {
        lemma_own_nearest(high);
    }
    lemma_nearest_order(num, den, h, 1);
}

proof fn lemma_nearest_at_least(num: nat, den: nat, low: Single)
    requires
        0 < den,
        low.is_finite(),
        low.magnitude() * den <= num,
    ensures
        nearest_bits(num, den) >= low.bits % 0x8000_0000,
{
    let l = low.magnitude();
    assert(nearest_bits(l, 1) == low.bits % 0x8000_0000) by {
        lemma_own_nearest(low);
    }
    lemma_nearest_order(l, 1, num, den);
}

proof fn lemma_signed_bits(negative: bool, bits: nat)
    requires
        bits < 0x7f80_0000,
    ensures
        with_sign(negative, bits).is_finite(),
        with_sign(negative, bits).is_negative() == negative,
        with_sign(negative, bits).bits % 0x8000_0000 == bits,
{
}

/// The magnitude of a product lies between numbers that its exact magnitude lies
/// between.
pub proof fn law_product_keeps_order(x: Single, y: Single, low: Single, high: Single)
    requires
        x.is_finite(),
        y.is_finite(),
        low.is_finite(),
        high.is_finite(),
        low.value() * exp2(149) <= x.magnitude() * y.magnitude() <= high.value() * exp2(149),
    ensures
        x.product(y).is_finite(),
        x.product(y).is_negative() == (x.is_negative() != y.is_negative()),
        low.value() <= x.product(y).magnitude() <= high.value(),
{
    single::lemma_exp2_numbers();
    single::lemma_exp2_grows(0, 149);
    lemma_nearest_between(
        x.magnitude() * y.magnitude(),
        exp2(149),
        low,
        high,
        x.is_negative() != y.is_negative(),
    );
}

/// The magnitude of a quotient lies between numbers that its exact magnitude lies
/// between.
pub proof fn law_ratio_keeps_order(x: Single, y: Single, low: Single, high: Single)
    requires
        x.is_finite(),
        y.is_finite(),
        y.magnitude() > 0,
        low.is_finite(),
        high.is_finite(),
        low.value() * y.magnitude() <= x.magnitude() * exp2(149) <= high.value() * y.magnitude(),
    ensures
        x.ratio(y).is_finite(),
        x.ratio(y).is_negative() == (x.is_negative() != y.is_negative()),
        low.value() <= x.ratio(y).magnitude() <= high.value(),
{
    lemma_nearest_between(
        x.magnitude() * exp2(149),
        y.magnitude(),
        low,
        high,
        x.is_negative() != y.is_negative(),
    );
}

/// A number between two whole numbers rounds to a whole number between them.
pub proof fn law_rounding_keeps_order(x: Single, low: int, high: int)
    requires
        x.is_finite(),
        low * exp2(149) <= x.value() <= high * exp2(149),
        0 <= low,
        high <= 255,
    ensures
        low <= x.rounded(0, 255) <= high,
{
    single::lemma_exp2_numbers();
    single::lemma_exp2_grows(0, 149);
    let unit = exp2(149);
    let num = 2 * x.magnitude() + unit;
    assert(exp2(150) == 2 * unit);
    assert(low * unit >= 0) by (nonlinear_arith)
        requires
            low >= 0,
    ;
    assert(x.value() == x.magnitude() || x.magnitude() == 0);
    assert(num >= (2 * unit) * low) by (nonlinear_arith)
        requires
            num >= 2 * (low * unit) + unit,
    ;
    assert(num < (2 * unit) * (high + 1)) by (nonlinear_arith)
        requires
            num <= 2 * (high * unit) + unit,
            unit >= 1,
    ;
    assert(high >= 0) by (nonlinear_arith)
        requires
            0 <= high * unit,
            unit >= 1,
    ;
    lemma_quotient_below(num, 2 * unit, low as nat);
    lemma_quotient_below(num, 2 * unit, (high + 1) as nat);
    if x.is_negative() {
        assert(low <= 0) by (nonlinear_arith)
            requires
                low * unit <= 0,
                unit >= 1,
        ;
        lemma_quotient_below(num, 2 * unit, 1);
    }
}

/// A difference is zero only between equal numbers.
pub proof fn law_difference_of_unequal(x: Single, y: Single)
    requires
        x.is_finite(),
        y.is_finite(),
        !x.same(y),
    ensures
        !x.sum(y.negated()).is_nan(),
        x.sum(y.negated()).magnitude() != 0,
{
    let v = x.value() - y.value();
    lemma_negated(y);
    law_order_is_by_value(x, y);
    let size: nat = if v < 0 {
        (-v) as nat
    } else {
        v as nat
    };
    single::lemma_exp2_numbers();
    assert(1 * exp2(0) == 1) by (nonlinear_arith)
        requires
            exp2(0) == 1,
    ;
    lemma_exact(1, 0);
    lemma_nearest_order(1, 1, size, 1);
    lemma_zero(x.sum(y.negated()));
}

/// What is divided by a finite number other than zero is a number.
pub proof fn law_ratio_is_number(x: Single, y: Single)
    requires
        !x.is_nan(),
        y.is_finite(),
        y.magnitude() != 0,
    ensures
        !x.ratio(y).is_nan(),
{
}

/// The sum of finite numbers is a number.
pub proof fn law_sum_is_number(x: Single, y: Single)
    requires
        x.is_finite(),
        y.is_finite(),
    ensures
        !x.sum(y).is_nan(),
{
}

/// A number divided by itself is one.
pub proof fn law_ratio_of_equals(x: Single)
    requires
        x.is_finite(),
        x.magnitude() != 0,
    ensures
        x.ratio(x) == counted(1),
{
    let m = x.magnitude();
    assert(m * exp2(149) == (1 * exp2(149)) * m) by (nonlinear_arith);
    assert(1 * m == m) by (nonlinear_arith);
    lemma_nearest_scaled(1 * exp2(149), 1, m);
}

// ── Pixels and channels ──────────────────────────────────────────────────────

/// A number with a mantissa of up to 2 to the power of 24, or infinity where it
/// is too large.
proof fn lemma_encoded_wide(r: nat, k: nat, negative: bool)
    requires
        0x80_0000 <= r <= 0x100_0000,
    ensures
        ({
            let b = k * 8388608 + r;
            let x = with_sign(
                negative,
                if b > 0x7f80_0000 {
                    0x7f80_0000
                } else {
                    b
                },
            );
            &&& !x.is_nan()
            &&& x.is_negative() == negative
            &&& x.is_infinite() ==> k >= 253
            &&& !x.is_infinite() ==> x.magnitude() == r * exp2(k)
        }),
{
    let b = k * 8388608 + r;
    if b < 0x7f80_0000 {
        if r < 0x100_0000 {
            lemma_encoded(r, k, negative);
        } else {
            lemma_encoded(0x80_0000, k + 1, negative);
            assert(exp2(k + 1) == 2 * exp2(k));
        }
    }
}

/// The product with a small whole number.
proof fn lemma_multiple(x: Single, factor: nat)
    requires
        x.is_finite(),
        0 < factor < 0x1000,
    ensures
        ({
            let y = x.product(counted(factor));
            let p = factor * x.mantissa();
            let k = excess(p);
            &&& !y.is_nan()
            &&& y.is_negative() == x.is_negative()
            &&& y.is_infinite() ==> k + x.shift() >= 253 && round_even(p, exp2(k)) >= 0x80_0000
            &&& !y.is_infinite() ==> y.magnitude() == round_even(p, exp2(k)) * exp2(k + x.shift())
        }),
{
    let unit = exp2(149);
    let m = x.mantissa();
    let s = x.shift();
    let p = factor * m;
    let k = excess(p);
    let r = round_even(p, exp2(k));
    single::lemma_exp2_numbers();
    single::lemma_exp2_grows(0, 149);
    assert(exp2(24) == 2 * exp2(23));
    law_whole_numbers_are_exact(factor, false);
    assert(x.magnitude() * (factor * unit) == (p * exp2(s)) * unit) by (nonlinear_arith)
        requires
            x.magnitude() == m * exp2(s),
            p == factor * m,
    ;
    assert(1 * unit == unit) by (nonlinear_arith);
    lemma_nearest_scaled(p * exp2(s), 1, unit);
    let bits = nearest_bits(p * exp2(s), 1);
    assert(x.product(counted(factor)) == with_sign(x.is_negative(), bits));
    if k == 0 {
        assert(p < 0x100_0000);
        assert(p * 1 == p) by (nonlinear_arith);
        lemma_round_close(p, 1, p, 0);
        lemma_small_product(p, s, x.is_negative());
    } else {
        lemma_excess_bounds(p);
        let f = -(k as int);
        single::lemma_exp2_sum(24, k);
        single::lemma_exp2_sum(24, (k - 1) as nat);
        assert(1 * exp2(k) == exp2(k)) by (nonlinear_arith);
        assert(1 * exp2((k - 1) as nat) == exp2((k - 1) as nat)) by (nonlinear_arith);
        assert(p * exp2(0) == p) by (nonlinear_arith)
            requires
                exp2(0) == 1,
        ;
        assert(exp2(24) * exp2(k) == exp2(k) * exp2(24)) by (nonlinear_arith);
        assert(exp2(24) * exp2((k - 1) as nat) == exp2((k - 1) as nat) * exp2(24)) by (
        nonlinear_arith);
        lemma_nearest_at(p, 1, s as int, f);
        assert(p * exp2(s) / 1 == p * exp2(s));
        lemma_mantissa_range(p, k);
        lemma_encoded_wide(r, k + s, x.is_negative());
    }
}

proof fn lemma_mantissa_range(p: nat, k: nat)
    requires
        p < exp2(24 + k),
        p >= exp2((23 + k) as nat),
    ensures
        0x80_0000 <= round_even(p, exp2(k)) <= 0x100_0000,
{
    single::lemma_exp2_numbers();
    single::lemma_exp2_grows(0, k);
    single::lemma_exp2_sum(24, k);
    single::lemma_exp2_sum(23, k);
    assert(exp2(24) == 2 * exp2(23));
    let u = exp2(k);
    assert(0x80_0000 * u <= p * 1) by (nonlinear_arith)
        requires
            p >= 0x80_0000 * u,
    ;
    assert(p * 1 <= 0x100_0000 * u) by (nonlinear_arith)
        requires
            p < 0x100_0000 * u,
    ;
    lemma_round_even_order(0x80_0000, 1, p, u);
    lemma_round_even_order(p, u, 0x100_0000, 1);
}

/// A product that fits into the mantissa is exact.
pub proof fn lemma_small_product(p: nat, s: nat, negative: bool)
    requires
        p < 0x100_0000,
        s <= 253,
    ensures
        with_sign(negative, nearest_bits(p * exp2(s), 1)).is_finite(),
        with_sign(negative, nearest_bits(p * exp2(s), 1)).is_negative() == negative,
        with_sign(negative, nearest_bits(p * exp2(s), 1)).magnitude() == p * exp2(s),
{
    single::lemma_exp2_numbers();
    if p == 0 {
        assert(p * exp2(s) == 0 && 0 * exp2(0) == 0) by (nonlinear_arith)
            requires
                p == 0,
        ;
        lemma_exact(0, 0);
        lemma_encoded(0, 0, negative);
    } else {
        let t = lemma_normal(p);
        if t <= s {
            let m = p * exp2(t);
            let k = (s - t) as nat;
            single::lemma_exp2_sum(t, k);
            assert(m * exp2(k) == p * exp2(s)) by (nonlinear_arith)
                requires
                    m == p * exp2(t),
                    exp2(s) == exp2(t) * exp2(k),
            ;
            lemma_exact(m, k);
            lemma_encoded(m, k, negative);
        } else {
            single::lemma_exp2_grows(s, t);
            assert(p * exp2(s) <= p * exp2(t)) by (nonlinear_arith)
                requires
                    exp2(s) <= exp2(t),
            ;
            let m = p * exp2(s);
            assert(m * exp2(0) == m) by (nonlinear_arith)
                requires
                    exp2(0) == 1,
            ;
            lemma_exact(m, 0);
            lemma_encoded(m, 0, negative);
        }
    }
}

/// The whole part of a product with a small whole number.
proof fn lemma_multiple_whole(x: Single, factor: nat)
    requires
        x.is_finite(),
        0 < factor < 0x1000,
    ensures
        ({
            let y = x.product(counted(factor));
            &&& !y.is_nan()
            &&& y.is_negative() == x.is_negative()
            &&& y.is_infinite() ==> x.multiple(factor) >= 0x8000_0000
            &&& !y.is_infinite() ==> y.magnitude() / exp2(149) == x.multiple(factor)
        }),
{
    let p = factor * x.mantissa();
    let k = excess(p);
    let r = round_even(p, exp2(k));
    let e = x.exponent() + k;
    lemma_multiple(x, factor);
    if e >= 0 {
        lemma_large_whole(r, (k + x.shift()) as nat);
        if x.product(counted(factor)).is_infinite() {
            single::lemma_exp2_numbers();
            single::lemma_exp2_grows(31, e as nat);
            assert(r * exp2(e as nat) >= 0x8000_0000) by (nonlinear_arith)
                requires
                    r >= 1,
                    exp2(e as nat) >= 0x8000_0000,
            ;
        }
    } else {
        lemma_small_whole(r, (k + x.shift()) as nat);
    }
}

/// The pixel of a position is the whole part of 480 times the position.
pub proof fn law_pixel_is_product(x: Single)
    ensures
        x.pixel() == x.product(counted(480)).truncated(i32::MIN as int, i32::MAX as int),
{
    law_whole_numbers_are_exact(480, false);
    lemma_positive_count(480);
    if x.is_finite() {
        lemma_multiple_whole(x, 480);
    }
}

/// The color channel of an intensity is the whole part of 255 times the
/// intensity, held within a byte.
pub proof fn law_channel_is_product(x: Single)
    ensures
        x.channel() == x.product(counted(255)).truncated(0, 255),
{
    law_whole_numbers_are_exact(255, false);
    lemma_positive_count(255);
    if x.is_finite() {
        lemma_multiple_whole(x, 255);
    }
}

proof fn lemma_positive_count(n: nat)
    requires
        0 < n < 0x100_0000,
    ensures
        counted(n).magnitude() > 0,
{
    law_whole_numbers_are_exact(n, false);
    single::lemma_exp2_numbers();
    single::lemma_exp2_grows(0, 149);
    assert(n * exp2(149) > 0) by (nonlinear_arith)
        requires
            n > 0,
            exp2(149) >= 1,
    ;
}

// ── Nearness ─────────────────────────────────────────────────────────────────

/// A fraction that is neither tiny nor huge is rounded by at most one part in 2 to
/// the power of 24.
pub proof fn law_rounding_is_close(num: nat, den: nat, negative: bool)
    requires
        0 < den,
        den * 0x80_0000 <= num,
        num < den * exp2(240),
    ensures
        ({
            let x = with_sign(negative, nearest_bits(num, den));
            &&& x.is_finite()
            &&& x.is_negative() == negative
            &&& 0x100_0000 * (x.magnitude() * den - num) <= num
            &&& 0x100_0000 * (num - x.magnitude() * den) <= num
        }),
{
    let q = num / den;
    let k = excess(q);
    let d = den * exp2(k);
    let r = round_even(num, d);
    single::lemma_exp2_numbers();
    single::lemma_exp2_grows(0, k);
    assert(exp2(24) == 2 * exp2(23));
    lemma_excess_bounds(q);
    lemma_fundamental_div_mod(num as int, den as int);
    assert(d > 0) by (nonlinear_arith)
        requires
            d == den * exp2(k),
            0 < den,
            0 < exp2(k),
    ;
    single::lemma_round_even(num, d);
    single::lemma_exp2_sum(24, k);
    assert(num < d * 0x100_0000) by (nonlinear_arith)
        requires
            num == den * q + num % den,
            num % den < den,
            q < 0x100_0000 * exp2(k),
            d == den * exp2(k),
            0 < den,
    ;
    assert(d * 0x80_0000 <= num) by {
        if k > 0 {
            single::lemma_exp2_sum(23, k);
            assert(d * 0x80_0000 <= num) by (nonlinear_arith)
                requires
                    num == den * q + num % den,
                    num % den >= 0,
                    q >= 0x80_0000 * exp2(k),
                    d == den * exp2(k),
                    0 < den,
            ;
        } else {
            assert(den * 1 == den);
        }
    }
    assert(0x80_0000 <= r <= 0x100_0000) by (nonlinear_arith)
        requires
            d > 0,
            d * 0x80_0000 <= num < d * 0x100_0000,
            2 * (r * d) <= 2 * num + d,
            2 * num <= 2 * (r * d) + d,
    ;
    if k >= 230 {
        single::lemma_exp2_grows(240, 23 + k);
        assert(den * exp2(240) <= num) by (nonlinear_arith)
            requires
                num == den * q + num % den,
                num % den >= 0,
                q >= exp2((23 + k) as nat),
                exp2(240) <= exp2((23 + k) as nat),
                0 < den,
        ;
    }
    lemma_encoded_wide(r, k, negative);
    let x = with_sign(negative, nearest_bits(num, den));
    assert(x.magnitude() == r * exp2(k));
    assert(r * exp2(k) * den == r * d) by (nonlinear_arith)
        requires
            d == den * exp2(k),
    ;
}

} // verus!
