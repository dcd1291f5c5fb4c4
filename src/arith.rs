use vstd::prelude::*;

verus! {

/// `num / den` rounded to the nearest integer, halves upward.
pub open spec fn round_div(num: int, den: int) -> int
    recommends
        den > 0,
{
    (2 * num + den) / (2 * den)
}

pub proof fn lemma_mul_abs(a: int, b: int, ba: int, bb: int) by (nonlinear_arith)
    requires
        -ba <= a <= ba,
        -bb <= b <= bb,
    ensures
        -(ba * bb) <= a * b <= ba * bb,
{
}

pub proof fn lemma_mul_le_left(a: int, b: int, c: int) by (nonlinear_arith)
    requires
        0 <= a,
        b <= c,
    ensures
        a * b <= a * c,
{
}

pub proof fn lemma_mul_pos(a: int, b: int) by (nonlinear_arith)
    requires
        0 < a,
        0 < b,
    ensures
        0 < a * b,
        a <= a * b,
        b <= a * b,
{
}

/// A quotient is bounded by the bound on the ratio.
pub proof fn lemma_div_bound(a: int, b: int, k: int)
    requires
        b > 0,
        k >= 0,
        -(k * b) <= a <= k * b,
    ensures
        -k - 1 <= a / b <= k,
{
    vstd::arithmetic::div_mod::lemma_fundamental_div_mod(a, b);
    vstd::arithmetic::div_mod::lemma_mod_bound(a, b);
    let q = a / b;
    assert(-k - 1 <= q <= k) by (nonlinear_arith)
        requires
            a == b * q + a % b,
            0 <= a % b < b,
            -(k * b) <= a <= k * b,
            b > 0,
    {
    }
}

/// Floor division by a positive divisor.
pub fn floor_div(a: i128, b: i128) -> (r: i128)
    requires
        b > 0,
        -0x1_0000_0000_0000_0000_0000_0000 <= a <= 0x1_0000_0000_0000_0000_0000_0000,
        b <= 0x1_0000_0000_0000_0000_0000_0000,
    ensures
        r == a as int / b as int,
{
    if a >= 0 {
        a / b
    } else {
        let m: i128 = -a;
        let q: i128 = (m + b - 1) / b;
        proof {
            vstd::arithmetic::div_mod::lemma_fundamental_div_mod((m + b - 1) as int, b as int);
            vstd::arithmetic::div_mod::lemma_mod_pos_bound((m + b - 1) as int, b as int);
            let r0 = (m + b - 1) as int % b as int;
            assert(0 <= a + q * b < b) by (nonlinear_arith)
                requires
                    m + b - 1 == b * q + r0,
                    0 <= r0 < b,
                    a == -m,
            {
            }
            assert((-q) * b == -(q * b)) by (nonlinear_arith);
            vstd::arithmetic::div_mod::lemma_fundamental_div_mod_converse(
                a as int,
                b as int,
                -q,
                a + q * b,
            );
        }
        -q
    }
}

/// `num / den` rounded to the nearest integer, halves upward.
pub fn div_round(num: i128, den: i128) -> (r: i128)
    requires
        den > 0,
        -0x1000_0000_0000_0000_0000_0000 <= num <= 0x1000_0000_0000_0000_0000_0000,
        den <= 0x1000_0000_0000_0000_0000_0000,
    ensures
        r == round_div(num as int, den as int),
{
    floor_div(2 * num + den, 2 * den)
}

} // verus!
