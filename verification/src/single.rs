//! Single-precision numbers in their IEEE 754 encoding.
//!
//! Settings such as thresholds, positions and font sizes are single-precision
//! numbers. They are held as the 32 bits of their encoding: one sign bit, eight
//! exponent bits, 23 fraction bits. This module orders them, writes down the
//! ones that the library needs, and turns normalized values into pixels and
//! color channels.

use vstd::prelude::*;

verus! {

/// A single-precision number.
#[derive(Clone, Copy, Debug)]
pub struct Single {
    pub bits: u32,
}

/// 2 to the power of `n`.
pub open spec fn exp2(n: nat) -> nat
    decreases n,
{
    if n == 0 {
        1
    } else {
        2 * exp2((n - 1) as nat)
    }
}

/// `n / d`, rounded to the nearest integer and to the even one of two.
pub open spec fn round_even(n: nat, d: nat) -> nat {
    let q = n / d;
    let r = n % d;
    if 2 * r > d || (2 * r == d && q % 2 == 1) {
        q + 1
    } else {
        q
    }
}

// ── Order ────────────────────────────────────────────────────────────────────

impl Single {
    /// Whether this is not a number.
    pub open spec fn is_nan(self) -> bool {
        self.bits % 0x8000_0000 > 0x7f80_0000
    }

    /// An integer that orders numbers as their values: the encoding without
    /// its sign bit, negated if the sign bit is set.
    pub open spec fn key(self) -> int {
        if self.bits < 0x8000_0000 {
            self.bits as int
        } else {
            0x8000_0000 - self.bits
        }
    }

    /// `self <= other`. Nothing holds of what is not a number.
    pub open spec fn le(self, other: Single) -> bool {
        !self.is_nan() && !other.is_nan() && self.key() <= other.key()
    }

    /// `self == other`. The two zeros are equal.
    pub open spec fn same(self, other: Single) -> bool {
        !self.is_nan() && !other.is_nan() && self.key() == other.key()
    }

    /// Tests for a value that is not a number.
    pub fn nan_test(self) -> (res: bool)
        ensures
            res == self.is_nan(),
    {
        self.bits % 0x8000_0000 > 0x7f80_0000
    }

    /// An integer that orders numbers as their values.
    pub fn sort_key(self) -> (res: i64)
        ensures
            res == self.key(),
    {
        if self.bits < 0x8000_0000 {
            self.bits as i64
        } else {
            0x8000_0000 - self.bits as i64
        }
    }

    /// Tests `self <= other`.
    pub fn at_most(self, other: Single) -> (res: bool)
        ensures
            res == self.le(other),
    {
        !self.nan_test() && !other.nan_test() && self.sort_key() <= other.sort_key()
    }

    /// Tests `self == other`.
    pub fn equals(self, other: Single) -> (res: bool)
        ensures
            res == self.same(other),
    {
        !self.nan_test() && !other.nan_test() && self.sort_key() == other.sort_key()
    }
}

/// Among numbers, `le` is a total order up to `same`.
pub proof fn law_single_order(a: Single, b: Single, c: Single)
    requires
        !a.is_nan(),
        !b.is_nan(),
        !c.is_nan(),
    ensures
        a.le(b) || b.le(a),
        a.le(b) && b.le(c) ==> a.le(c),
        (a.le(b) && b.le(a)) == a.same(b),
{
}

// ── Quotients ────────────────────────────────────────────────────────────────

/// How often `num` is doubled until it reaches `den` times 2 to the power of 23.
pub open spec fn doublings(num: nat, den: nat) -> nat
    decreases 2 * den * 8388608 - num,
{
    if 0 < num < den * 8388608 {
        1 + doublings(2 * num, den)
    } else {
        0
    }
}

/// The encoding of the number nearest to `num / den`, for a quotient from
/// 2 to the power of -100 up to 2 to the power of 24, or zero.
pub open spec fn quotient_bits(num: nat, den: nat) -> int {
    if num == 0 {
        0
    } else {
        let k = doublings(num, den);
        (149 - k) * 8388608 + round_even(num * exp2(k), den)
    }
}

pub proof fn lemma_exp2_numbers()
    ensures
        exp2(0) == 1,
        exp2(8) == 256,
        exp2(9) == 512,
        exp2(22) == 4194304,
        exp2(23) == 8388608,
        exp2(31) == 0x8000_0000,
        exp2(32) == 0x1_0000_0000,
        exp2(40) == 0x100_0000_0000,
{
    reveal_with_fuel(exp2, 41);
}

proof fn lemma_exp2_step(x: nat, k: nat)
    ensures
        x * exp2(k + 1) == 2 * x * exp2(k),
{
    assert(exp2(k + 1) == 2 * exp2(k));
    assert(x * (2 * exp2(k)) == 2 * x * exp2(k)) by (nonlinear_arith);
}

proof fn lemma_doublings_bound(num: nat, den: nat, b: nat)
    requires
        0 < num,
        num * exp2(b) >= den * 8388608,
    ensures
        doublings(num, den) <= b,
    decreases b,
{
    if 0 < num < den * 8388608 {
        if b == 0 {
            assert(num * exp2(0) == num) by (nonlinear_arith)
                requires
                    exp2(0) == 1,
            ;
        } else {
            lemma_exp2_step(num, (b - 1) as nat);
            lemma_doublings_bound(2 * num, den, (b - 1) as nat);
        }
    }
}

impl Single {
    /// The number nearest to `num / den`.
    pub fn quotient(num: u32, den: u32) -> (res: Single)
        requires
            0 < den <= 1000,
            num < den * 16777216,
        ensures
            res.bits == quotient_bits(num as nat, den as nat),
            res == quotient_single(num as nat, den as nat),
    {
        if num == 0 {
            return Single { bits: 0 };
        }
        let limit: u64 = den as u64 * 8388608;
        let mut n: u64 = num as u64;
        let mut k: u32 = 0;
        proof {
            lemma_exp2_numbers();
            assert(num * exp2(40) >= den * 8388608) by (nonlinear_arith)
                requires
                    exp2(40) == 0x100_0000_0000,
                    num >= 1,
                    den <= 1000,
            ;
            lemma_doublings_bound(num as nat, den as nat, 40);
            assert(num * exp2(0) == num) by (nonlinear_arith)
                requires
                    exp2(0) == 1,
            ;
        }
        while n < limit
            invariant
                0 < den <= 1000,
                limit == den * 8388608,
                0 < n < 2 * limit,
                doublings(num as nat, den as nat) == k + doublings(n as nat, den as nat),
                doublings(num as nat, den as nat) <= 40,
                n == num * exp2(k as nat),
            decreases 2 * limit - n,
        {
            proof {
                lemma_exp2_step(num as nat, k as nat);
                assert(2 * (num * exp2(k as nat)) == 2 * num * exp2(k as nat)) by (nonlinear_arith);
            }
            n = 2 * n;
            k = k + 1;
        }
        let d = den as u64;
        let q = n / d;
        let r = n % d;
        let m: u64 = if 2 * r > d || (2 * r == d && q % 2 == 1) {
            q + 1
        } else {
            q
        };
        assert(m == round_even(n as nat, den as nat));
        assert(q <= 16777216) by (nonlinear_arith)
            requires
                q == n / d,
                n < 2 * (d * 8388608),
                d > 0,
        ;
        Single { bits: ((149 - k) as u64 * 8388608 + m) as u32 }
    }

    /// A whole number.
    pub fn whole(n: u32) -> (res: Single)
        requires
            n < 16777216,
        ensures
            res == whole_single(n as nat),
    {
        Single::quotient(n, 1)
    }
}

/// A whole number.
pub open spec fn whole_single(n: nat) -> Single {
    Single { bits: quotient_bits(n, 1) as u32 }
}

/// The number nearest to `num / den`.
pub open spec fn quotient_single(num: nat, den: nat) -> Single {
    Single { bits: quotient_bits(num, den) as u32 }
}

// ── Multiples ────────────────────────────────────────────────────────────────

/// How often `p` is halved until fewer than 25 bits are left.
pub open spec fn excess(p: nat) -> nat
    decreases p,
{
    if p >= 16777216 {
        1 + excess(p / 2)
    } else {
        0
    }
}

impl Single {
    pub open spec fn exponent_field(self) -> int {
        (self.bits / 8388608 % 256) as int
    }

    pub open spec fn fraction_field(self) -> int {
        (self.bits % 8388608) as int
    }

    /// A finite number is `mantissa` times 2 to the power of `exponent`, up to
    /// its sign.
    pub open spec fn mantissa(self) -> nat {
        if self.exponent_field() == 0 {
            self.fraction_field() as nat
        } else {
            (self.fraction_field() + 8388608) as nat
        }
    }

    pub open spec fn exponent(self) -> int {
        if self.exponent_field() == 0 {
            -149
        } else {
            self.exponent_field() - 150
        }
    }

    /// The whole part of the magnitude of a finite number after it has been
    /// multiplied by `factor` and rounded to 24 bits.
    pub open spec fn multiple(self, factor: nat) -> nat {
        let p = factor * self.mantissa();
        let k = excess(p);
        let r = round_even(p, exp2(k));
        let e = self.exponent() + k;
        if e >= 0 {
            r * exp2(e as nat)
        } else {
            r / exp2((-e) as nat)
        }
    }

    pub open spec fn is_negative(self) -> bool {
        self.bits >= 0x8000_0000
    }

    pub open spec fn is_infinite(self) -> bool {
        self.bits % 0x8000_0000 == 0x7f80_0000
    }
}

pub proof fn lemma_exp2_grows(a: nat, b: nat)
    requires
        a <= b,
    ensures
        0 < exp2(a) <= exp2(b),
    decreases b,
{
    if a < b {
        lemma_exp2_grows(a, (b - 1) as nat);
    } else if a > 0 {
        lemma_exp2_grows((a - 1) as nat, (a - 1) as nat);
    }
}

fn power_of_two(n: u32) -> (res: u64)
    requires
        n <= 40,
    ensures
        res == exp2(n as nat),
        0 < res <= 0x100_0000_0000,
{
    let mut res: u64 = 1;
    let mut i: u32 = 0;
    proof {
        lemma_exp2_numbers();
    }
    while i < n
        invariant
            i <= n <= 40,
            res == exp2(i as nat),
            exp2(40) == 0x100_0000_0000,
        decreases n - i,
    {
        proof {
            lemma_exp2_grows((i + 1) as nat, 40);
            assert(exp2((i + 1) as nat) == 2 * exp2(i as nat));
        }
        res = 2 * res;
        i = i + 1;
    }
    proof {
        lemma_exp2_grows(n as nat, 40);
    }
    res
}

proof fn lemma_excess_bound(p: nat, b: nat)
    requires
        p < 16777216 * exp2(b),
    ensures
        excess(p) <= b,
    decreases b,
{
    if p >= 16777216 {
        if b == 0 {
            assert(exp2(0) == 1);
        } else {
            assert(exp2(b) == 2 * exp2((b - 1) as nat));
            lemma_excess_bound(p / 2, (b - 1) as nat);
        }
    }
}

fn excess_of(p: u64) -> (res: u32)
    requires
        p < 16777216 * 512,
    ensures
        res == excess(p as nat),
        res <= 9,
{
    proof {
        lemma_exp2_numbers();
        lemma_excess_bound(p as nat, 9);
    }
    let mut rest: u64 = p;
    let mut k: u32 = 0;
    while rest >= 16777216
        invariant
            excess(p as nat) == k + excess(rest as nat),
            excess(p as nat) <= 9,
        decreases rest,
    {
        rest = rest / 2;
        k = k + 1;
    }
    k
}

/// The whole part of a multiple, held at 2 to the power of 31.
fn multiple_of(m: u32, e: i32, factor: u32) -> (res: u64)
    requires
        m < 16777216,
        -149 <= e <= 104,
        factor <= 511,
    ensures
        ({
            let p = factor as nat * m as nat;
            let k = excess(p);
            let r = round_even(p, exp2(k));
            let s = e + k;
            let whole = if s >= 0 {
                r * exp2(s as nat)
            } else {
                r / exp2((-s) as nat)
            };
            res == if whole >= 0x8000_0000 {
                0x8000_0000
            } else {
                whole as int
            }
        }),
{
    assert(factor * m < 16777216 * 512) by (nonlinear_arith)
        requires
            factor <= 511,
            m < 16777216,
    ;
    let p: u64 = factor as u64 * m as u64;
    let k = excess_of(p);
    let unit = power_of_two(k);
    let q = p / unit;
    let rem = p % unit;
    proof {
        lemma_exp2_numbers();
        lemma_exp2_grows(k as nat, 9);
        assert(q <= p) by (nonlinear_arith)
            requires
                q == p / unit,
                unit >= 1,
        ;
        assert(rem < unit) by (nonlinear_arith)
            requires
                rem == p % unit,
                unit >= 1,
        ;
    }
    let r: u64 = if 2 * rem > unit || (2 * rem == unit && q % 2 == 1) {
        q + 1
    } else {
        q
    };
    assert(r == round_even(p as nat, exp2(k as nat)));
    assert(r <= 0x2_0000_0000);
    let s: i32 = e + k as i32;
    if s >= 0 {
        if r == 0 {
            assert(0 * exp2(s as nat) == 0);
            return 0;
        }
        if s >= 32 {
            proof {
                lemma_exp2_grows(32, s as nat);
                assert(r * exp2(s as nat) >= 0x8000_0000) by (nonlinear_arith)
                    requires
                        r >= 1,
                        exp2(s as nat) >= 0x1_0000_0000,
                ;
            }
            return 0x8000_0000;
        }
        let f = power_of_two(s as u32);
        proof {
            assert(r * f <= 0x2_0000_0000 * 0x100_0000_0000) by (nonlinear_arith)
                requires
                    0 <= r <= 0x2_0000_0000,
                    0 <= f <= 0x100_0000_0000,
            ;
        }
        let w: u128 = r as u128 * f as u128;
        if w >= 0x8000_0000 {
            0x8000_0000
        } else {
            w as u64
        }
    } else {
        let t: i32 = -s;
        if t > 40 {
            proof {
                lemma_exp2_grows(40, t as nat);
                assert(r as nat / exp2(t as nat) == 0) by (nonlinear_arith)
                    requires
                        0 <= r < exp2(t as nat),
                ;
            }
            return 0;
        }
        let f = power_of_two(t as u32);
        let w = r / f;
        if w >= 0x8000_0000 {
            0x8000_0000
        } else {
            w
        }
    }
}

impl Single {
    /// The whole part of a multiple of a finite number, held at 2 to the power
    /// of 31.
    fn capped_multiple(self, factor: u32) -> (res: u64)
        requires
            !self.is_nan(),
            !self.is_infinite(),
            factor <= 511,
        ensures
            res == if self.multiple(factor as nat) >= 0x8000_0000 {
                0x8000_0000
            } else {
                self.multiple(factor as nat) as int
            },
    {
        let exp = self.bits / 8388608 % 256;
        let frac = self.bits % 8388608;
        let m: u32 = if exp == 0 {
            frac
        } else {
            frac + 8388608
        };
        let e: i32 = if exp == 0 {
            -149
        } else {
            exp as i32 - 150
        };
        assert(m == self.mantissa() && e == self.exponent());
        multiple_of(m, e, factor)
    }

    pub fn infinite_test(self) -> (res: bool)
        ensures
            res == self.is_infinite(),
    {
        self.bits % 0x8000_0000 == 0x7f80_0000
    }
}

// ── Pixels ───────────────────────────────────────────────────────────────────

impl Single {
    /// The pixel at this position of a 480-pixel axis: 480 times the number in
    /// single precision, without its fraction, held within 32 bits. What is
    /// not a number becomes 0.
    pub open spec fn pixel(self) -> int {
        if self.is_nan() {
            0
        } else if self.is_infinite() || self.multiple(480) >= 0x8000_0000 {
            if self.is_negative() {
                -0x8000_0000
            } else {
                0x7fff_ffff
            }
        } else if self.is_negative() {
            -(self.multiple(480) as int)
        } else {
            self.multiple(480) as int
        }
    }

    /// The pixel at this position of a 480-pixel axis.
    pub fn to_pixel(self) -> (res: i32)
        ensures
            res == self.pixel(),
    {
        if self.nan_test() {
            return 0;
        }
        let negative = self.bits >= 0x8000_0000;
        if self.infinite_test() {
            return if negative {
                i32::MIN
            } else {
                i32::MAX
            };
        }
        let w = self.capped_multiple(480);
        if negative {
            (-(w as i64)) as i32
        } else if w == 0x8000_0000 {
            i32::MAX
        } else {
            w as i32
        }
    }
}

// ── Color channels ───────────────────────────────────────────────────────────

impl Single {
    /// The color channel of this intensity: 255 times the number in single
    /// precision, without its fraction, held within a byte. What is not a
    /// number becomes 0.
    pub open spec fn channel(self) -> int {
        if self.is_nan() || self.is_negative() {
            0
        } else if self.is_infinite() || self.multiple(255) > 255 {
            255
        } else {
            self.multiple(255) as int
        }
    }

    /// The color channel of this intensity.
    pub fn to_channel(self) -> (res: u8)
        ensures
            res == self.channel(),
    {
        if self.nan_test() || self.bits >= 0x8000_0000 {
            return 0;
        }
        if self.infinite_test() {
            return 255;
        }
        let w = self.capped_multiple(255);
        if w > 255 {
            255
        } else {
            w as u8
        }
    }
}

proof fn lemma_doublings_exact(num: nat, den: nat, k: nat)
    requires
        0 < num,
        den * 8388608 <= num * exp2(k),
        k > 0 ==> num * exp2((k - 1) as nat) < den * 8388608,
    ensures
        doublings(num, den) == k,
    decreases k,
{
    if k == 0 {
        assert(exp2(0) == 1);
        assert(num * exp2(0) == num) by (nonlinear_arith)
            requires
                exp2(0) == 1,
        ;
    } else {
        let j = (k - 1) as nat;
        lemma_exp2_grows(0, j);
        assert(exp2(0) == 1);
        assert(num <= num * exp2(j)) by (nonlinear_arith)
            requires
                exp2(j) >= 1,
        ;
        lemma_exp2_step(num, j);
        if j > 0 {
            lemma_exp2_step(num, (j - 1) as nat);
        }
        lemma_doublings_exact(2 * num, den, j);
    }
}

/// The steps from a pixel to its normalized position and back.
proof fn lemma_pixel_steps(
    px: nat,
    k: nat,
    unit: nat,
    m: nat,
    h: nat,
    half: nat,
    r: nat,
    down: nat,
)
    requires
        0 < px,
        h < k <= 40,
        exp2(k) == unit,
        480 * 8388608 <= px * unit < 2 * (480 * 8388608),
        m == round_even(px * unit, 480),
        8388608 <= m < 16777216,
        excess(480 * m) == h,
        exp2(h) == half,
        r == round_even(480 * m, half),
        exp2((k - h) as nat) == down,
        r / down == px,
        px < 0x8000_0000,
    ensures
        quotient_single(px, 480).pixel() == px,
{
    lemma_exp2_step(px, (k - 1) as nat);
    assert(2 * px * exp2((k - 1) as nat) == 2 * (px * exp2((k - 1) as nat))) by (nonlinear_arith);
    assert(px * exp2(k) == px * unit);
    lemma_doublings_exact(px, 480, k);
    let s = quotient_single(px, 480);
    assert(quotient_bits(px, 480) == (149 - k) * 8388608 + m);
    assert(s.bits == (149 - k) * 8388608 + m);
    assert(s.exponent_field() == 150 - k);
    assert(s.fraction_field() == m - 8388608);
    assert(s.mantissa() == m);
    assert(s.exponent() == -(k as int));
    assert(s.multiple(480) == px);
    assert(!s.is_nan());
}

proof fn lemma_doublings_fit(num: nat, den: nat)
    requires
        0 < num < den * 16777216,
    ensures
        den * 8388608 <= num * exp2(doublings(num, den)) < den * 16777216,
    decreases 2 * den * 8388608 - num,
{
    if num < den * 8388608 {
        lemma_doublings_fit(2 * num, den);
        let k = doublings(2 * num, den);
        lemma_exp2_step(num, k);
    } else {
        assert(exp2(0) == 1);
        assert(num * exp2(0) == num) by (nonlinear_arith)
            requires
                exp2(0) == 1,
        ;
    }
}

proof fn lemma_doublings_order(a: nat, b: nat)
    requires
        0 < a <= b,
    ensures
        doublings(b, 1) <= doublings(a, 1),
    decreases 16777216 - a,
{
    if a < 8388608 && b < 8388608 {
        lemma_doublings_order(2 * a, 2 * b);
    }
}

pub proof fn lemma_whole_bits(n: nat)
    requires
        0 < n < 16777216,
    ensures
        ({
            let k = doublings(n, 1);
            let m = n * exp2(k);
            &&& 8388608 <= m < 16777216
            &&& k <= 23
            &&& quotient_bits(n, 1) == (149 - k) * 8388608 + m
            &&& whole_single(n).bits == (149 - k) * 8388608 + m
            &&& !whole_single(n).is_nan()
            &&& whole_single(n).key() == (149 - k) * 8388608 + m
        }),
{
    let k = doublings(n, 1);
    let m = n * exp2(k);
    lemma_doublings_fit(n, 1);
    lemma_exp2_numbers();
    assert(n * exp2(23) >= 8388608) by (nonlinear_arith)
        requires
            n >= 1,
            exp2(23) == 8388608,
    ;
    lemma_doublings_bound(n, 1, 23);
    assert(round_even(m, 1) == m);
}

/// Whole numbers are ordered as their encodings.
pub proof fn law_whole_order(a: nat, b: nat)
    requires
        0 < a <= b < 16777216,
    ensures
        whole_single(a).le(whole_single(b)),
        a < b ==> !whole_single(b).le(whole_single(a)),
{
    lemma_whole_bits(a);
    lemma_whole_bits(b);
    lemma_doublings_order(a, b);
    let j = doublings(a, 1);
    let k = doublings(b, 1);
    if j == k {
        lemma_exp2_grows(0, j);
        assert(exp2(0) == 1);
        assert(a * exp2(j) <= b * exp2(j)) by (nonlinear_arith)
            requires
                a <= b,
        ;
        if a < b {
            assert(a * exp2(j) < b * exp2(j)) by (nonlinear_arith)
                requires
                    a < b,
                    exp2(j) >= 1,
            ;
        }
    }
}

/// Four is less than five and a half.
pub proof fn lemma_five_and_a_half()
    ensures
        whole_single(2).le(quotient_single(11, 2)),
        whole_single(4).le(quotient_single(11, 2)),
        quotient_single(11, 2).le(quotient_single(11, 2)),
{
    reveal_with_fuel(doublings, 25);
    reveal_with_fuel(exp2, 25);
    assert(exp2(21) == 2097152);
    lemma_doublings_exact(11, 2, 21);
    lemma_doublings_exact(4, 1, 21);
    lemma_doublings_exact(2, 1, 22);
    assert(quotient_bits(11, 2) == 1085276160);
    assert(quotient_bits(4, 1) == 1082130432);
    assert(quotient_bits(2, 1) == 1073741824);
}

/// The pixels at which the presets place readings.
pub open spec fn is_preset_pixel(px: int) -> bool {
    px == 35 || px == 50 || px == 83 || px == 100 || px == 110 || px == 145 || px == 146 || px == 196 || px == 210 || px == 240 || px == 272 || px == 276 || px == 290 || px == 326 || px == 334 || px == 335 || px == 368 || px == 370 || px == 380 || px == 406 || px == 416 || px == 430
}

/// One hundredth, in its encoding.
pub proof fn lemma_hundredth_bits()
    ensures
        quotient_bits(1, 100) == 0x3c23_d70a,
{
    reveal_with_fuel(exp2, 31);
    assert(exp2(30) == 0x4000_0000);
    assert(exp2(29) == 0x2000_0000);
    lemma_doublings_exact(1, 100, 30);
    assert(1 * exp2(30) == 0x4000_0000);
    assert(round_even(0x4000_0000, 100) == 10737418);
}

/// A number divided by itself is one.
pub proof fn lemma_one_of_one(n: nat)
    requires
        0 < n < 0x100_0000,
    ensures
        quotient_single(n, n) == whole_single(1),
{
    lemma_exp2_numbers();
    assert(exp2(22) < 8388608 && exp2(23) == 8388608);
    assert(n * exp2(23) == n * 8388608);
    assert(n * exp2(22) < n * 8388608) by (nonlinear_arith)
        requires
            n > 0,
            exp2(22) < 8388608,
    ;
    lemma_doublings_exact(n, n, 23);
    lemma_doublings_exact(1, 1, 23);
    vstd::arithmetic::div_mod::lemma_fundamental_div_mod_converse(
        (n * 8388608) as int,
        n as int,
        8388608,
        0,
    );
    assert(round_even(n * exp2(23), n) == 8388608);
    assert(round_even(1 * exp2(23), 1) == 8388608);
}

/// One twentieth, in its encoding.
pub proof fn lemma_twentieth_bits()
    ensures
        quotient_bits(1, 20) == 0x3d4c_cccd,
{
    reveal_with_fuel(exp2, 29);
    assert(exp2(28) == 0x1000_0000);
    lemma_doublings_exact(1, 20, 28);
    assert(1 * exp2(28) == 0x1000_0000);
    assert(round_even(0x1000_0000, 20) == 13421773);
}

/// A pixel of a preset survives being normalized: its position, turned back
/// into a pixel, is the same pixel.
pub proof fn law_preset_pixels_survive(px: nat)
    requires
        is_preset_pixel(px as int),
    ensures
        quotient_single(px, 480).pixel() == px,
{
    reveal_with_fuel(exp2, 28);
    reveal_with_fuel(excess, 11);
    if px == 35 {
        lemma_pixel_steps(35, 27, 134217728, 9786709, 9, 512, 9175040, 262144);
    } else if px == 50 {
        lemma_pixel_steps(50, 27, 134217728, 13981013, 9, 512, 13107200, 262144);
    } else if px == 83 {
        lemma_pixel_steps(83, 26, 67108864, 11604241, 9, 512, 10878976, 131072);
    } else if px == 100 {
        lemma_pixel_steps(100, 26, 67108864, 13981013, 9, 512, 13107200, 131072);
    } else if px == 110 {
        lemma_pixel_steps(110, 26, 67108864, 15379115, 9, 512, 14417920, 131072);
    } else if px == 145 {
        lemma_pixel_steps(145, 25, 33554432, 10136235, 9, 512, 9502720, 65536);
    } else if px == 146 {
        lemma_pixel_steps(146, 25, 33554432, 10206140, 9, 512, 9568256, 65536);
    } else if px == 196 {
        lemma_pixel_steps(196, 25, 33554432, 13701393, 9, 512, 12845056, 65536);
    } else if px == 210 {
        lemma_pixel_steps(210, 25, 33554432, 14680064, 9, 512, 13762560, 65536);
    } else if px == 240 {
        lemma_pixel_steps(240, 24, 16777216, 8388608, 8, 256, 15728640, 65536);
    } else if px == 272 {
        lemma_pixel_steps(272, 24, 16777216, 9507089, 9, 512, 8912896, 32768);
    } else if px == 276 {
        lemma_pixel_steps(276, 24, 16777216, 9646899, 9, 512, 9043968, 32768);
    } else if px == 290 {
        lemma_pixel_steps(290, 24, 16777216, 10136235, 9, 512, 9502720, 32768);
    } else if px == 326 {
        lemma_pixel_steps(326, 24, 16777216, 11394526, 9, 512, 10682368, 32768);
    } else if px == 334 {
        lemma_pixel_steps(334, 24, 16777216, 11674146, 9, 512, 10944512, 32768);
    } else if px == 335 {
        lemma_pixel_steps(335, 24, 16777216, 11709099, 9, 512, 10977280, 32768);
    } else if px == 368 {
        lemma_pixel_steps(368, 24, 16777216, 12862532, 9, 512, 12058624, 32768);
    } else if px == 370 {
        lemma_pixel_steps(370, 24, 16777216, 12932437, 9, 512, 12124160, 32768);
    } else if px == 406 {
        lemma_pixel_steps(406, 24, 16777216, 14190729, 9, 512, 13303808, 32768);
    } else if px == 430 {
        lemma_pixel_steps(430, 24, 16777216, 15029589, 9, 512, 14090240, 32768);
    } else if px == 380 {
        lemma_pixel_steps(380, 24, 16777216, 13281963, 9, 512, 12451840, 32768);
    } else if px == 416 {
        lemma_pixel_steps(416, 24, 16777216, 14540254, 9, 512, 13631488, 32768);
    }
}

pub proof fn lemma_round_even(n: nat, d: nat)
    requires
        d > 0,
    ensures
        2 * (round_even(n, d) * d) <= 2 * n + d,
        2 * n <= 2 * (round_even(n, d) * d) + d,
{
    let q = n / d;
    let r = n % d;
    vstd::arithmetic::div_mod::lemma_fundamental_div_mod(n as int, d as int);
    assert(n == q * d + r) by (nonlinear_arith)
        requires
            n == d * q + r,
    ;
    assert((q + 1) * d == q * d + d) by (nonlinear_arith);
    assert(r < d);
}

pub proof fn lemma_exp2_sum(a: nat, b: nat)
    ensures
        exp2(a + b) == exp2(a) * exp2(b),
    decreases b,
{
    if b == 0 {
        assert(exp2(a) * 1 == exp2(a)) by (nonlinear_arith);
    } else {
        lemma_exp2_sum(a, (b - 1) as nat);
        assert(exp2(a + b) == 2 * exp2((a + b - 1) as nat));
        assert(2 * (exp2(a) * exp2((b - 1) as nat)) == exp2(a) * (2 * exp2((b - 1) as nat)))
            by (nonlinear_arith);
    }
}

/// The intensity of a channel, as a mantissa and an exponent.
proof fn lemma_intensity(c: nat) -> (k: nat)
    requires
        1 <= c <= 255,
    ensures
        ({
            let s = quotient_single(c, 255);
            let m = s.mantissa();
            let n = c * exp2(k);
            &&& 23 <= k <= 31
            &&& s.exponent() == -(k as int)
            &&& 8388608 <= m < 16777216
            &&& 510 * m <= 2 * n + 255
            &&& 2 * n <= 510 * m + 255
            &&& !s.is_nan()
            &&& !s.is_infinite()
            &&& !s.is_negative()
        }),
{
    let k = doublings(c, 255);
    let n = c * exp2(k);
    let m = round_even(n, 255);
    lemma_exp2_numbers();
    lemma_doublings_fit(c, 255);
    assert(c * exp2(31) >= 255 * 8388608) by (nonlinear_arith)
        requires
            c >= 1,
            exp2(31) == 0x8000_0000,
    ;
    lemma_doublings_bound(c, 255, 31);
    if k < 23 {
        lemma_exp2_grows(k, 22);
        assert(c * exp2(k) <= 255 * 4194304) by (nonlinear_arith)
            requires
                c <= 255,
                exp2(k) <= 4194304,
        ;
    }
    let j = c * exp2((k - 23) as nat);
    lemma_exp2_sum((k - 23) as nat, 23);
    assert(n == j * 8388608) by (nonlinear_arith)
        requires
            n == c * exp2(k),
            exp2(k) == exp2((k - 23) as nat) * 8388608,
            j == c * exp2((k - 23) as nat),
    ;
    assert(j <= 509);
    lemma_round_even(n, 255);
    assert(8388608 <= m < 16777216);
    let s = quotient_single(c, 255);
    assert(quotient_bits(c, 255) == (149 - k) * 8388608 + m);
    assert(s.bits == (149 - k) * 8388608 + m);
    assert(s.exponent_field() == 150 - k);
    assert(s.fraction_field() == m - 8388608);
    k
}

/// A color channel survives being turned into an intensity and back, up to a
/// difference of one.
pub proof fn law_channel_survives(c: u8)
    ensures
        c - 1 <= quotient_single(c as nat, 255).channel() <= c,
{
    let s = quotient_single(c as nat, 255);
    lemma_exp2_numbers();
    if c == 0 {
        assert(s.bits == 0);
        assert(s.mantissa() == 0);
        assert(excess(0) == 0);
        assert(exp2(0) == 1);
        assert(round_even(0, 1) == 0);
        lemma_exp2_grows(0, 149);
        assert(0nat / exp2(149) == 0) by (nonlinear_arith)
            requires
                exp2(149) > 0,
        ;
    } else {
        let k = lemma_intensity(c as nat);
        let m = s.mantissa();
        let p = 255 * m;
        let h = excess(p);
        lemma_excess_bound(p, 8);
        lemma_exp2_grows(h, 8);
        let unit = exp2(h);
        let r = round_even(p, unit);
        lemma_round_even(p, unit);
        let down = exp2((k - h) as nat);
        lemma_exp2_grows(0, (k - h) as nat);
        assert(exp2(0) == 1);
        lemma_exp2_sum((k - h) as nat, h);
        lemma_exp2_grows(23, k);
        let whole = r / down;
        assert(s.multiple(255) == whole);
        lemma_channel_bounds(c as nat, exp2(k), unit, down, m, r, whole);
    }
}

proof fn lemma_channel_bounds(
    c: nat,
    full: nat,
    unit: nat,
    down: nat,
    m: nat,
    r: nat,
    whole: nat,
)
    requires
        8388608 <= full,
        0 < unit <= 256,
        0 < down,
        full == down * unit,
        510 * m <= 2 * (c * full) + 255,
        2 * (c * full) <= 510 * m + 255,
        2 * (r * unit) <= 510 * m + unit,
        510 * m <= 2 * (r * unit) + unit,
        whole == r / down,
    ensures
        c - 1 <= whole <= c,
{
    let rest = r % down;
    vstd::arithmetic::div_mod::lemma_fundamental_div_mod(r as int, down as int);
    assert(rest < down);
    assert(r * unit == whole * full + rest * unit) by (nonlinear_arith)
        requires
            r == down * whole + rest,
            full == down * unit,
    ;
    assert(0 <= rest * unit < full) by (nonlinear_arith)
        requires
            0 <= rest < down,
            0 < unit,
            full == down * unit,
    ;
    if whole > c {
        assert(whole * full >= c * full + full) by (nonlinear_arith)
            requires
                whole >= c + 1,
        ;
    }
    if whole < c - 1 {
        assert(whole * full + 2 * full <= c * full) by (nonlinear_arith)
            requires
                whole + 2 <= c,
        ;
    }
}

} // verus!
