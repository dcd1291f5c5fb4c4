use vstd::prelude::*;

use crate::arith::{div_round, lemma_div_bound, lemma_mul_abs, lemma_mul_le_left, lemma_mul_pos, round_div};
use crate::geometry::{Vec2, COORD_LIMIT, SCALE};

verus! {

/// Offset of the synthetic points placed beyond either end of the curve: 0.01.
pub const EDGE_OFFSET: i64 = 100;

/// `a + (b - a) * t`, with `t` a fixed-point blend factor, rounded to a unit.
pub open spec fn lerp_value(a: int, b: int, t: int) -> int {
    a + round_div((b - a) * t, SCALE as int)
}

/// The x values never decrease along the sequence.
pub open spec fn sorted_by_x(ps: Seq<Vec2>) -> bool {
    forall|i: int, j: int| 0 <= i <= j < ps.len() ==> ps[i].x <= ps[j].x
}

/// Every coordinate lies in [0, 1].
pub open spec fn in_unit_square(ps: Seq<Vec2>) -> bool {
    forall|i: int| 0 <= i < ps.len() ==> 0 <= #[trigger] ps[i].x <= SCALE && 0 <= ps[i].y <= SCALE
}

/// Among the first `k` points, the greatest index whose x is at most `t`; 0 if none.
pub open spec fn last_at_or_before(ps: Seq<Vec2>, t: int, k: int) -> int
    decreases k,
{
    if k <= 0 {
        0
    } else if ps[k - 1].x <= t {
        k - 1
    } else {
        last_at_or_before(ps, t, k - 1)
    }
}

/// The segment that `t` falls into: the greatest index whose x is at most `t`, or 0.
pub open spec fn segment_index(ps: Seq<Vec2>, t: int) -> int {
    last_at_or_before(ps, t, ps.len() as int)
}

/// The point past the last one, at the same height.
pub open spec fn past_end(ps: Seq<Vec2>) -> Vec2 {
    Vec2 { x: (ps.last().x + EDGE_OFFSET) as i64, y: ps.last().y }
}

/// The four control points of segment `i`: before, start, end, after.
pub open spec fn control_points(ps: Seq<Vec2>, i: int) -> (Vec2, Vec2, Vec2, Vec2) {
    let last = ps.len() - 1;
    let before = if i == 0 {
        Vec2 { x: (ps[0].x - EDGE_OFFSET) as i64, y: ps[0].y }
    } else {
        ps[i - 1]
    };
    let end = if i < last {
        ps[i + 1]
    } else {
        past_end(ps)
    };
    let after = if i < last - 1 {
        ps[i + 2]
    } else {
        past_end(ps)
    };
    (before, ps[i], end, after)
}

/// Cubic Hermite interpolation between `p0` and `p1` at `t`, with Catmull-Rom
/// tangents scaled by the segment length, as an exact rational rounded to a unit.
/// With `u = n / d`, this is `y0*h00(u) + m0*h10(u) + y1*h01(u) + m1*h11(u)`,
/// multiplied through by `d^3 * d0 * d1`.
pub open spec fn catmull_rom(pm: Vec2, p0: Vec2, p1: Vec2, p2: Vec2, t: int) -> int {
    let n = t - p0.x;
    let d = p1.x - p0.x;
    let d0 = p1.x - pm.x;
    let d1 = p2.x - p0.x;
    let n3 = n * n * n;
    let n2d = n * n * d;
    let nd2 = n * d * d;
    let d3 = d * d * d;
    let h00 = 2 * n3 - 3 * n2d + d3;
    let h10 = n3 - 2 * n2d + nd2;
    let h01 = 3 * n2d - 2 * n3;
    let h11 = n3 - n2d;
    let num = (p0.y * h00) * (d0 * d1) + ((p1.y - pm.y) * h10) * (d * d1) + (p1.y * h01) * (d0
        * d1) + ((p2.y - p0.y) * h11) * (d0 * d);
    round_div(num, d3 * (d0 * d1))
}

/// What `sample` returns.
pub open spec fn sample_value(ps: Seq<Vec2>, t: int) -> int {
    if ps.len() == 0 {
        0
    } else if ps.len() == 1 {
        ps[0].y as int
    } else if ps.len() == 2 {
        lerp_value(ps[0].y as int, ps[1].y as int, t)
    } else if ps.len() == 3 {
        lerp_value(ps[0].y as int, ps[2].y as int, t)
    } else if t <= 0 {
        ps[0].y as int
    } else if t >= SCALE {
        ps.last().y as int
    } else {
        let (pm, p0, p1, p2) = control_points(ps, segment_index(ps, t));
        catmull_rom(pm, p0, p1, p2, t)
    }
}

/// The inputs on which no segment of zero length is divided by: with four
/// points or more, a `t` left of every point needs the first segment to be
/// of positive length.
pub open spec fn sample_defined(ps: Seq<Vec2>, t: int) -> bool {
    ps.len() >= 4 && 0 < t < SCALE && t < ps[0].x ==> ps[0].x < ps[1].x
}

proof fn lemma_last_at_or_before(ps: Seq<Vec2>, t: int, k: int)
    requires
        1 <= k <= ps.len(),
    ensures
        0 <= last_at_or_before(ps, t, k) < k,
        forall|j: int|
            last_at_or_before(ps, t, k) < j < k ==> (#[trigger] ps[j]).x > t,
        ps[last_at_or_before(ps, t, k)].x <= t || (last_at_or_before(ps, t, k) == 0
            && ps[0].x > t),
    decreases k,
{
    if ps[k - 1].x <= t {
        assert(last_at_or_before(ps, t, k) == k - 1);
    } else if k == 1 {
        assert(last_at_or_before(ps, t, k) == last_at_or_before(ps, t, 0));
        assert(last_at_or_before(ps, t, 0) == 0);
    } else {
        assert(last_at_or_before(ps, t, k) == last_at_or_before(ps, t, k - 1));
        lemma_last_at_or_before(ps, t, k - 1);
    }
}

/// `a + (b - a) * t`: linear interpolation by a fixed-point blend factor,
/// rounded to the nearest unit.
pub fn lerp(a: i64, b: i64, t: i64) -> (r: i64)
    requires
        -COORD_LIMIT <= a <= COORD_LIMIT,
        -COORD_LIMIT <= b <= COORD_LIMIT,
        -COORD_LIMIT <= t <= COORD_LIMIT,
        i64::MIN <= lerp_value(a as int, b as int, t as int) <= i64::MAX,
    ensures
        r == lerp_value(a as int, b as int, t as int),
{
    let diff: i128 = b as i128 - a as i128;
    proof {
        lemma_mul_abs(diff as int, t as int, 2 * COORD_LIMIT as int, COORD_LIMIT as int);
    }
    let q: i128 = div_round(diff * t as i128, SCALE as i128);
    (a as i128 + q) as i64
}

/// The segment index for `t`: scans from the end for the first point whose
/// x is at most `t`.
fn lowest(points: &[Vec2], t: i64) -> (r: usize)
    ensures
        r as int == segment_index(points@, t as int),
{
    let mut k: usize = points.len();
    while k > 0
        invariant
            k <= points@.len(),
            segment_index(points@, t as int) == last_at_or_before(points@, t as int, k as int),
        decreases k,
    {
        if points[k - 1].x <= t {
            return k - 1;
        }
        k = k - 1;
    }
    0
}

/// The Hermite value of `catmull_rom`, computed exactly in 128-bit integers.
fn hermite(pm: Vec2, p0: Vec2, p1: Vec2, p2: Vec2, t: i64) -> (r: i64)
    requires
        0 < t < SCALE,
        0 <= p0.x <= SCALE,
        pm.x <= p0.x,
        p0.x < p1.x,
        p1.x <= p2.x,
        -EDGE_OFFSET <= pm.x,
        p2.x <= SCALE + EDGE_OFFSET,
        0 <= pm.y <= SCALE,
        0 <= p0.y <= SCALE,
        0 <= p1.y <= SCALE,
        0 <= p2.y <= SCALE,
    ensures
        r == catmull_rom(pm, p0, p1, p2, t as int),
{
    let b: i128 = 10200;
    let n: i128 = t as i128 - p0.x as i128;
    let d: i128 = p1.x as i128 - p0.x as i128;
    let d0: i128 = p1.x as i128 - pm.x as i128;
    let d1: i128 = p2.x as i128 - p0.x as i128;
    let b3: i128 = 1061208000000;
    assert(b3 == b * b * b) by (nonlinear_arith)
        requires
            b == 10200,
            b3 == 1061208000000,
    {
    }
    proof {
        lemma_mul_abs(n as int, n as int, b as int, b as int);
        lemma_mul_abs((n * n) as int, n as int, (b * b) as int, b as int);
        lemma_mul_abs((n * n) as int, d as int, (b * b) as int, b as int);
        lemma_mul_abs(n as int, d as int, b as int, b as int);
        lemma_mul_abs((n * d) as int, d as int, (b * b) as int, b as int);
        lemma_mul_abs(d as int, d as int, b as int, b as int);
        lemma_mul_abs((d * d) as int, d as int, (b * b) as int, b as int);
    }
    let n3 = n * n * n;
    let n2d = n * n * d;
    let nd2 = n * d * d;
    let d3 = d * d * d;
    let h00 = 2 * n3 - 3 * n2d + d3;
    let h10 = n3 - 2 * n2d + nd2;
    let h01 = 3 * n2d - 2 * n3;
    let h11 = n3 - n2d;
    let y0 = p0.y as i128;
    let y1 = p1.y as i128;
    let dy0 = p1.y as i128 - pm.y as i128;
    let dy1 = p2.y as i128 - p0.y as i128;
    let k: i128 = 63672480000000000;
    assert(k == 10000 * (6 * b3)) by (nonlinear_arith)
        requires
            k == 63672480000000000,
            b3 == 1061208000000,
    {
    }
    proof {
        lemma_mul_abs(y0 as int, h00 as int, 10000, 6 * b3 as int);
        lemma_mul_abs(dy0 as int, h10 as int, 10000, 6 * b3 as int);
        lemma_mul_abs(y1 as int, h01 as int, 10000, 6 * b3 as int);
        lemma_mul_abs(dy1 as int, h11 as int, 10000, 6 * b3 as int);
        lemma_mul_pos(d0 as int, d1 as int);
        lemma_mul_pos(d as int, d1 as int);
        lemma_mul_pos(d0 as int, d as int);
        lemma_mul_abs(d0 as int, d1 as int, b as int, b as int);
        lemma_mul_le_left(d1 as int, d as int, d0 as int);
        lemma_mul_le_left(d0 as int, d as int, d1 as int);
        vstd::arithmetic::mul::lemma_mul_is_commutative(d as int, d1 as int);
        vstd::arithmetic::mul::lemma_mul_is_commutative(d0 as int, d1 as int);
    }
    let dd = d0 * d1;
    let ed1 = d * d1;
    let ed0 = d0 * d;
    let a0 = y0 * h00;
    let a1 = dy0 * h10;
    let a2 = y1 * h01;
    let a3 = dy1 * h11;
    proof {
        lemma_mul_abs(a0 as int, dd as int, k as int, dd as int);
        lemma_mul_abs(a1 as int, ed1 as int, k as int, ed1 as int);
        lemma_mul_abs(a2 as int, dd as int, k as int, dd as int);
        lemma_mul_abs(a3 as int, ed0 as int, k as int, ed0 as int);
        lemma_mul_le_left(k as int, ed1 as int, dd as int);
        lemma_mul_le_left(k as int, ed0 as int, dd as int);
        lemma_mul_abs(k as int, dd as int, k as int, (b * b) as int);
        lemma_mul_pos(d as int, d as int);
        lemma_mul_pos((d * d) as int, d as int);
        lemma_mul_pos(d3 as int, dd as int);
        lemma_mul_abs(d3 as int, dd as int, b3 as int, (b * b) as int);
    }
    let num = a0 * dd + a1 * ed1 + a2 * dd + a3 * ed0;
    let den = d3 * dd;
    proof {
        lemma_mul_le_left(4 * k as int, dd as int, den as int);
        assert(-(4 * k * den) <= num <= 4 * k * den) by (nonlinear_arith)
            requires
                -(4 * k * dd) <= num <= 4 * k * dd,
                4 * k * dd <= 4 * k * den,
        {
        }
        assert(-((4 * k + 1) * (2 * den)) <= 2 * num + den <= (4 * k + 1) * (2 * den))
            by (nonlinear_arith)
            requires
                -(4 * k * den) <= num <= 4 * k * den,
                den > 0,
                k > 0,
        {
        }
        lemma_div_bound((2 * num + den) as int, (2 * den) as int, 4 * k + 1);
    }
    let r = div_round(num, den);
    r as i64
}

/// Evaluates the curve through `points` at `t`.
///
/// By the number of points: none gives 0; one gives its y; two interpolate
/// linearly between their y values by `t` itself; three do the same between
/// the first and the last (the middle one is not used). From four points on,
/// `t <= 0` and `t >= 1` give the first and the last y, and any other `t`
/// the Catmull-Rom value on the segment that holds it, with synthetic points
/// 0.01 beyond either end where a neighbour is missing.
pub fn sample(points: &[Vec2], t: i64) -> (r: i64)
    requires
        points@.len() == 2 || points@.len() == 3 ==> in_unit_square(points@) && -COORD_LIMIT <= t
            <= COORD_LIMIT,
        points@.len() >= 4 && 0 < t < SCALE ==> sorted_by_x(points@) && in_unit_square(points@),
        sample_defined(points@, t as int),
    ensures
        r == sample_value(points@, t as int),
{
    let len = points.len();
    if len == 0 {
        return 0;
    }
    if len == 1 {
        return points[0].y;
    }
    if len == 2 || len == 3 {
        let first = points[0].y;
        let last = points[len - 1].y;
        proof {
            assert(0 <= points@[len - 1].y <= SCALE);
            lemma_mul_abs(last - first, t as int, SCALE as int, COORD_LIMIT as int);
            lemma_div_bound(
                2 * ((last - first) * t) + SCALE,
                2 * SCALE as int,
                COORD_LIMIT as int + 1,
            );
        }
        return lerp(first, last, t);
    }
    let last_ind = len - 1;
    if t <= 0 {
        return points[0].y;
    }
    if t >= SCALE {
        return points[last_ind].y;
    }
    let ind = lowest(points, t);
    proof {
        lemma_last_at_or_before(points@, t as int, len as int);
        assert(0 <= points@[ind as int].x <= SCALE);
        assert(0 <= points@[ind as int].y <= SCALE);
        assert(0 <= points@[last_ind as int].x <= SCALE);
    }
    let cp0 = points[ind];
    let end = Vec2 { x: points[last_ind].x + EDGE_OFFSET, y: points[last_ind].y };
    let cp1 = if ind < last_ind {
        points[ind + 1]
    } else {
        end
    };
    let cpm0 = if ind == 0 {
        Vec2 { x: points[0].x - EDGE_OFFSET, y: points[0].y }
    } else {
        points[ind - 1]
    };
    let cpm1 = if ind < last_ind - 1 {
        points[ind + 2]
    } else {
        end
    };
    proof {
        if ind < last_ind {
            assert(0 <= points@[ind + 1].y <= SCALE);
            assert(points@[ind + 1].x <= points@[last_ind as int].x);
        }
        if ind > 0 {
            assert(0 <= points@[ind - 1].y <= SCALE);
        }
        if ind < last_ind - 1 {
            assert(0 <= points@[ind + 2].y <= SCALE);
            assert(points@[ind + 2].x <= points@[last_ind as int].x);
        }
        assert(points@[ind as int].x <= points@[last_ind as int].x);
    }
    hermite(cpm0, cp0, cp1, cpm1, t)
}

/// With no points the curve is 0 everywhere, with one it is that point's y.
pub proof fn lemma_sample_few_points(ps: Seq<Vec2>, t: int)
    requires
        ps.len() <= 1,
    ensures
        ps.len() == 0 ==> sample_value(ps, t) == 0,
        ps.len() == 1 ==> sample_value(ps, t) == ps[0].y,
{
}

/// From four points on, the curve is clamped to the first y left of 0 and
/// to the last y right of 1.
pub proof fn lemma_sample_clamps(ps: Seq<Vec2>, t: int)
    requires
        ps.len() >= 4,
    ensures
        t <= 0 ==> sample_value(ps, t) == ps[0].y,
        t >= SCALE ==> sample_value(ps, t) == ps[ps.len() - 1].y,
{
}

} // verus!
