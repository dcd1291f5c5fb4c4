use vstd::prelude::*;

verus! {

/// Number of units in 1.0 on either axis.
pub const SCALE: i64 = 10000;

/// Largest magnitude a coordinate may have, in units.
pub const COORD_LIMIT: i64 = 1000000000000;

/// Distance (in units) within which a pointer is "over" a point: 0.03.
pub const ACTIVE_RADIUS: i64 = 300;

/// A position in normalized space, each axis in units of 1/`SCALE`.
#[derive(Clone, Copy, Debug, PartialEq, Eq, Structural)]
pub struct Vec2 {
    pub x: i64,
    pub y: i64,
}

impl Vec2 {
    pub fn new(x: i64, y: i64) -> (r: Vec2)
        ensures
            r.x == x,
            r.y == y,
    {
        Vec2 { x, y }
    }

    /// Both coordinates are within `COORD_LIMIT`.
    pub open spec fn in_range(self) -> bool {
        -COORD_LIMIT <= self.x <= COORD_LIMIT && -COORD_LIMIT <= self.y <= COORD_LIMIT
    }
}

/// Squared Euclidean distance between two positions.
pub open spec fn dist_sq(a: Vec2, b: Vec2) -> int {
    (a.x - b.x) * (a.x - b.x) + (a.y - b.y) * (a.y - b.y)
}

/// `x` rounded to the nearest multiple of `step`, halves away from zero.
pub open spec fn round_to(x: int, step: int) -> int
    recommends
        step > 0,
{
    if x >= 0 {
        ((x + step / 2) / step) * step
    } else {
        -(((-x + step / 2) / step) * step)
    }
}

/// The unit step that keeps `decimals` decimal places.
pub open spec fn decimal_step(decimals: u32) -> int {
    if decimals == 0 {
        10000
    } else if decimals == 1 {
        1000
    } else if decimals == 2 {
        100
    } else if decimals == 3 {
        10
    } else {
        1
    }
}

proof fn lemma_square_bound(a: int, b: int) by (nonlinear_arith)
    requires
        -b <= a <= b,
    ensures
        0 <= a * a <= b * b,
{
}

/// Squared distance between two in-range positions, exactly.
pub fn distance_sq(a: Vec2, b: Vec2) -> (r: i128)
    requires
        a.in_range(),
        b.in_range(),
    ensures
        r == dist_sq(a, b),
{
    let dx: i128 = a.x as i128 - b.x as i128;
    let dy: i128 = a.y as i128 - b.y as i128;
    proof {
        lemma_square_bound(dx as int, 2 * COORD_LIMIT as int);
        lemma_square_bound(dy as int, 2 * COORD_LIMIT as int);
    }
    dx * dx + dy * dy
}

/// Rounds `x` to `decimals` decimal places (of the normalized value),
/// halves away from zero.
pub fn roundf32(x: i64, decimals: u32) -> (r: i64)
    requires
        -COORD_LIMIT <= x <= COORD_LIMIT,
    ensures
        r == round_to(x as int, decimal_step(decimals)),
        -COORD_LIMIT <= r <= COORD_LIMIT,
        0 <= x ==> 0 <= r <= x + 5000,
        0 <= x <= SCALE ==> 0 <= r <= SCALE,
{
    let step: i64 = if decimals == 0 {
        10000
    } else if decimals == 1 {
        1000
    } else if decimals == 2 {
        100
    } else if decimals == 3 {
        10
    } else {
        1
    };
    let m: i64 = if x >= 0 {
        x
    } else {
        -x
    };
    let q = (m + step / 2) / step;
    proof {
        lemma_div_mul_le(m + step / 2, step as int);
        let k = (COORD_LIMIT as int) / (step as int);
        let ks = (SCALE as int) / (step as int);
        assert(k * step == COORD_LIMIT && ks * step == SCALE) by {
            if step == 10000 {
                assert(100000000 * 10000 == 1000000000000);
            } else if step == 1000 {
                assert(1000000000 * 1000 == 1000000000000);
            } else if step == 100 {
                assert(10000000000 * 100 == 1000000000000);
            } else if step == 10 {
                assert(100000000000 * 10 == 1000000000000);
            }
        }
        lemma_round_within(m as int, step as int, k);
        if m <= SCALE {
            lemma_round_within(m as int, step as int, ks);
        }
    }
    if x >= 0 {
        q * step
    } else {
        -(q * step)
    }
}

proof fn lemma_round_within(x: int, step: int, k: int)
    requires
        step > 0,
        k >= 0,
        0 <= x <= k * step,
    ensures
        ((x + step / 2) / step) * step <= k * step,
{
    let a = x + step / 2;
    vstd::arithmetic::div_mod::lemma_fundamental_div_mod(a, step);
    vstd::arithmetic::div_mod::lemma_mod_pos_bound(a, step);
    let q = a / step;
    assert(q * step <= k * step) by (nonlinear_arith)
        requires
            a == step * q + a % step,
            0 <= a % step < step,
            a < k * step + step,
            step > 0,
    {
    }
}

proof fn lemma_div_mul_le(a: int, b: int)
    requires
        a >= 0,
        b > 0,
    ensures
        0 <= (a / b) * b <= a,
{
    vstd::arithmetic::div_mod::lemma_fundamental_div_mod(a, b);
    vstd::arithmetic::div_mod::lemma_div_pos_is_pos(a, b);
    vstd::arithmetic::div_mod::lemma_mod_pos_bound(a, b);
    vstd::arithmetic::mul::lemma_mul_nonnegative(a / b, b);
    vstd::arithmetic::mul::lemma_mul_is_commutative(a / b, b);
}

} // verus!
