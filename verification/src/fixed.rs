//! Numbers in decimal, with a fixed number of decimals.

use crate::single::{exp2, round_even, Single};
use crate::text;
use crate::text::{push_chars, text_of, write_number};
use vstd::prelude::*;

verus! {

/// 10 to the power of `n`.
pub open spec fn exp10(n: nat) -> nat
    decreases n,
{
    if n == 0 {
        1
    } else {
        10 * exp10((n - 1) as nat)
    }
}

/// The last `count` digits of `n`.
pub open spec fn last_digits(n: nat, count: nat) -> Seq<char>
    decreases count,
{
    if count == 0 {
        seq![]
    } else {
        last_digits(n / 10, (count - 1) as nat).push(text::digit_char((n % 10) as int))
    }
}

/// A magnitude with `decimals` decimals, to the nearest and to the even one of
/// two.
pub open spec fn fixed_magnitude(magnitude: nat, decimals: nat) -> Seq<char> {
    let factor = exp10(decimals);
    let n = round_even(magnitude * factor, exp2(149));
    let whole = text::decimal(n / factor);
    if decimals == 0 {
        whole
    } else {
        whole + seq!['.'] + last_digits(n % factor, decimals)
    }
}

/// A number with `decimals` decimals.
pub open spec fn fixed(x: Single, decimals: nat) -> Seq<char> {
    if x.is_nan() {
        seq!['N', 'a', 'N']
    } else {
        let sign: Seq<char> = if x.is_negative() {
            seq!['-']
        } else {
            seq![]
        };
        if x.is_infinite() {
            sign + seq!['i', 'n', 'f']
        } else {
            sign + fixed_magnitude(x.magnitude(), decimals)
        }
    }
}

/// Writes a number with up to two decimals.
pub fn write_fixed(x: Single, decimals: usize) -> (res: Vec<char>)
    requires
        decimals <= 2,
    ensures
        res@ == fixed(x, decimals as nat),
{
    let mut res: Vec<char> = Vec::new();
    if x.nan_test() {
        res.push('N');
        res.push('a');
        res.push('N');
        return res;
    }
    if x.bits >= 0x8000_0000 {
        res.push('-');
    }
    if x.infinite_test() {
        res.push('i');
        res.push('n');
        res.push('f');
        return res;
    }
    let ghost sign = res@;
    let factor: u32 = if decimals == 0 {
        1
    } else if decimals == 1 {
        10
    } else {
        100
    };
    proof {
        reveal_with_fuel(exp10, 3);
        reveal_with_fuel(last_digits, 3);
    }
    assert(factor == exp10(decimals as nat));
    let (whole, rest): (u128, u32) = x.steps(factor);
    let digits: Vec<char> = write_number(whole);
    push_chars(&mut res, digits.as_slice());
    if decimals > 0 {
        res.push('.');
        if decimals == 2 {
            res.push(text::char_of_digit((rest / 10) as u8));
        }
        res.push(text::char_of_digit((rest % 10) as u8));
    }
    res
}

/// A number with up to two decimals.
pub fn fixed_text(x: Single, decimals: usize) -> (res: String)
    requires
        decimals <= 2,
    ensures
        res@ == fixed(x, decimals as nat),
{
    let chars: Vec<char> = write_fixed(x, decimals);
    text_of(chars.as_slice())
}

// ── Laws ─────────────────────────────────────────────────────────────────────

/// The number that the digits of a text make, with any point left out.
pub open spec fn numeral(s: Seq<char>) -> nat
    decreases s.len(),
{
    if s.len() == 0 {
        0
    } else if s.last() == '.' {
        numeral(s.drop_last())
    } else {
        (10 * numeral(s.drop_last()) + (s.last() as u32 - '0' as u32)) as nat
    }
}

proof fn lemma_numeral_of_decimal(n: nat)
    ensures
        numeral(text::decimal(n)) == n,
        forall|i: int|
            0 <= i < text::decimal(n).len() ==> text::is_digit(#[trigger] text::decimal(n)[i]),
        text::decimal(n).len() > 0,
    decreases n,
{
    let d = text::decimal(n);
    if n < 10 {
        assert(d.drop_last() =~= seq![]);
        assert(numeral(d.drop_last()) == 0);
    } else {
        lemma_numeral_of_decimal(n / 10);
        assert(d.drop_last() =~= text::decimal(n / 10));
        assert forall|i: int| 0 <= i < d.len() implies text::is_digit(#[trigger] d[i]) by {
            if i < d.len() - 1 {
                assert(d[i] == text::decimal(n / 10)[i]);
            }
        }
    }
}

proof fn lemma_numeral_of_last_digits(s: Seq<char>, n: nat, count: nat)
    requires
        n < exp10(count),
    ensures
        numeral(s + last_digits(n, count)) == numeral(s) * exp10(count) + n,
        last_digits(n, count).len() == count,
    decreases count,
{
    let t = last_digits(n, count);
    if count == 0 {
        assert(s + t =~= s);
        assert(numeral(s) * 1 == numeral(s)) by (nonlinear_arith);
    } else {
        let less = (count - 1) as nat;
        let u = last_digits(n / 10, less);
        lemma_numeral_of_last_digits(s, n / 10, less);
        assert((s + t).drop_last() =~= s + u);
        assert((s + t).last() == text::digit_char((n % 10) as int));
        let p = exp10(less);
        let v = numeral(s);
        assert(10 * (v * p + n / 10) == v * (10 * p) + 10 * (n / 10)) by (nonlinear_arith);
    }
}

/// A number is written as what it is: the digits, taken as one number, are the
/// nearest to the number times a power of ten, the point stands before as many
/// digits as are asked for, and a minus sign stands before a negative number only.
pub proof fn law_written_number_reads_back(x: Single, decimals: nat)
    requires
        x.is_finite(),
    ensures
        ({
            let s = fixed(x, decimals);
            let t = if x.is_negative() {
                s.skip(1)
            } else {
                s
            };
            let n = numeral(t);
            let exact = x.magnitude() * exp10(decimals);
            &&& x.is_negative() ==> s.len() > 0 && s[0] == '-'
            &&& t.len() > decimals
            &&& text::is_digit(t[0])
            &&& decimals > 0 ==> t.len() >= decimals + 2 && t[t.len() - decimals - 1] == '.'
            &&& 2 * n * exp2(149) <= 2 * exact + exp2(149)
            &&& 2 * exact <= 2 * n * exp2(149) + exp2(149)
        }),
{
    let s = fixed(x, decimals);
    let t = if x.is_negative() {
        s.skip(1)
    } else {
        s
    };
    let exact = x.magnitude() * exp10(decimals);
    let n = round_even(exact, exp2(149));
    let factor = exp10(decimals);
    crate::single::lemma_exp2_numbers();
    crate::single::lemma_exp2_grows(0, 149);
    lemma_exp10_positive(decimals);
    crate::single::lemma_round_even(exact, exp2(149));
    assert(2 * (n * exp2(149)) == 2 * n * exp2(149)) by (nonlinear_arith);
    assert(t =~= fixed_magnitude(x.magnitude(), decimals));
    let whole = text::decimal(n / factor);
    lemma_numeral_of_decimal(n / factor);
    assert(text::is_digit(whole[0]));
    if decimals > 0 {
        let head = whole + seq!['.'];
        assert(head.drop_last() =~= whole);
        vstd::arithmetic::div_mod::lemma_fundamental_div_mod(n as int, factor as int);
        lemma_numeral_of_last_digits(head, n % factor, decimals);
        assert(factor * (n / factor) == (n / factor) * factor) by (nonlinear_arith);
    } else {
        vstd::arithmetic::div_mod::lemma_div_basics(n as int);
    }
}

proof fn lemma_exp10_positive(n: nat)
    ensures
        exp10(n) > 0,
    decreases n,
{
    if n > 0 {
        lemma_exp10_positive((n - 1) as nat);
    }
}

} // verus!
