use vstd::prelude::*;

use crate::arith::{div_round, lemma_mul_abs, round_div};
use crate::geometry::{
    dist_sq, distance_sq, round_to, roundf32, Vec2, ACTIVE_RADIUS, COORD_LIMIT,
    SCALE,
};

verus! {

/// Bounds of a dragged point's x: 0.01 and 0.99.
pub const DRAG_MIN_X: i64 = 100;

pub const DRAG_MAX_X: i64 = 9900;

/// Distance under which a new point would duplicate one: 1.1 activation radii.
pub const CROWD_RADIUS: i64 = 330;

/// One control point: its confirmed position, the position it is being
/// dragged to, and whether a drag is in progress.
#[derive(Clone, Copy, Debug, PartialEq, Eq, Structural)]
pub struct Point {
    pub commited: Vec2,
    pub uncommited: Vec2,
    pub selected: bool,
}

impl Point {
    pub fn new(x: i64, y: i64) -> (r: Point)
        ensures
            r.commited == (Vec2 { x, y }),
            r.uncommited == r.commited,
            !r.selected,
    {
        Point { commited: Vec2 { x, y }, uncommited: Vec2 { x, y }, selected: false }
    }

    /// Both positions are in range, and an idle point has no pending move.
    pub open spec fn wf(self) -> bool {
        &&& self.commited.in_range()
        &&& self.uncommited.in_range()
        &&& !self.selected ==> self.uncommited == self.commited
    }
}

/// Which axes a drag may change.
#[derive(Clone, Copy, Debug, PartialEq, Eq, Structural)]
pub enum Axis {
    Both,
    OnlyX,
    OnlyY,
}

/// The editable point set.
pub struct Area {
    pub points: Vec<Point>,
}

/// Every point is well formed.
pub open spec fn points_wf(ps: Seq<Point>) -> bool {
    forall|i: int| 0 <= i < ps.len() ==> (#[trigger] ps[i]).wf()
}

/// The six points a new set starts with.
pub open spec fn default_points() -> Seq<Point> {
    seq![
        point_at(0, 5000),
        point_at(2000, 3000),
        point_at(4000, 5000),
        point_at(8000, 9000),
        point_at(8500, 500),
        point_at(10000, 5000),
    ]
}

pub open spec fn point_at(x: i64, y: i64) -> Point {
    Point { commited: Vec2 { x, y }, uncommited: Vec2 { x, y }, selected: false }
}

/// An x that insertion and deletion refuse: at or beyond either end.
pub open spec fn protected_x(x: int) -> bool {
    x <= 0 || x >= SCALE
}

/// Index of the first point at or after `i` whose confirmed position is `p`;
/// `ps.len()` if there is none.
pub open spec fn first_at(ps: Seq<Point>, p: Vec2, i: int) -> int
    decreases ps.len() - i,
{
    if i < 0 || i >= ps.len() {
        ps.len() as int
    } else if ps[i].commited == p {
        i
    } else {
        first_at(ps, p, i + 1)
    }
}

/// What `delete` leaves.
pub open spec fn deleted(ps: Seq<Point>, p: Vec2) -> Seq<Point> {
    let i = first_at(ps, p, 0);
    if protected_x(p.x as int) || i >= ps.len() {
        ps
    } else {
        ps.remove(i)
    }
}

/// Point `i` is the nearest to `c`, and the first of the nearest.
pub open spec fn is_closest(ps: Seq<Point>, c: Vec2, i: int) -> bool {
    &&& 0 <= i < ps.len()
    &&& forall|j: int|
        0 <= j < ps.len() ==> dist_sq(#[trigger] ps[j].commited, c) >= dist_sq(ps[i].commited, c)
    &&& forall|j: int|
        0 <= j < i ==> dist_sq(#[trigger] ps[j].commited, c) > dist_sq(ps[i].commited, c)
}

/// `a` comes before `b` in the stable order by confirmed x.
pub open spec fn before_x(ps: Seq<Point>, a: int, b: int) -> bool {
    ps[a].commited.x < ps[b].commited.x || (ps[a].commited.x == ps[b].commited.x && a <= b)
}

/// Point `i` comes first in the stable order by confirmed x.
pub open spec fn is_first_x(ps: Seq<Point>, i: int) -> bool {
    0 <= i < ps.len() && forall|j: int| 0 <= j < ps.len() ==> before_x(ps, i, j)
}

/// Point `i` comes last in the stable order by confirmed x.
pub open spec fn is_last_x(ps: Seq<Point>, i: int) -> bool {
    0 <= i < ps.len() && forall|j: int| 0 <= j < ps.len() ==> before_x(ps, j, i)
}

/// Point `i` is the last, in that order, of those at or left of `x`.
pub open spec fn is_left_of(ps: Seq<Point>, x: int, i: int) -> bool {
    0 <= i < ps.len() && ps[i].commited.x <= x && forall|j: int|
        0 <= j < ps.len() && ps[j].commited.x <= x ==> before_x(ps, j, i)
}

/// Point `i` is the first, in that order, of those right of `x`.
pub open spec fn is_right_of(ps: Seq<Point>, x: int, i: int) -> bool {
    0 <= i < ps.len() && ps[i].commited.x > x && forall|j: int|
        0 <= j < ps.len() && ps[j].commited.x > x ==> before_x(ps, i, j)
}

/// The linear estimate at `x` between the points `l` and `r`; `l` itself
/// where they share their x.
pub open spec fn between(l: Vec2, r: Vec2, x: int) -> Vec2 {
    if l.x == r.x {
        l
    } else {
        Vec2 {
            x: x as i64,
            y: (l.y + round_div((r.y - l.y) * (x - l.x), (r.x - l.x) as int)) as i64,
        }
    }
}

/// What `interpolate` returns, given the indices of the first and last
/// points by x, and of the bracketing points where they exist.
pub open spec fn preview(ps: Seq<Point>, x: int, first: int, last: int, l: int, r: int) -> Vec2 {
    if x <= 0 {
        ps[first].commited
    } else if x >= SCALE {
        ps[last].commited
    } else {
        between(ps[l].commited, ps[r].commited, x)
    }
}

/// Where a drag to `c` puts the pending position of `p`.
pub open spec fn dragged(p: Point, c: Vec2, axis: Axis, snap: bool) -> Vec2 {
    let x0 = if axis != Axis::OnlyY {
        c.x as int
    } else {
        p.commited.x as int
    };
    let y0 = if axis != Axis::OnlyX {
        c.y as int
    } else {
        p.commited.y as int
    };
    let x1 = if snap {
        round_to(x0, 1000)
    } else {
        x0
    };
    let y1 = if snap {
        round_to(y0, 1000)
    } else {
        y0
    };
    let x2 = if x1 < DRAG_MIN_X {
        DRAG_MIN_X as int
    } else if x1 > DRAG_MAX_X {
        DRAG_MAX_X as int
    } else {
        x1
    };
    let x3 = if p.commited.x == 0 {
        0
    } else if p.commited.x == SCALE {
        SCALE as int
    } else {
        x2
    };
    Vec2 { x: x3 as i64, y: y1 as i64 }
}

/// The point after a drag update.
pub open spec fn drag_point(p: Point, c: Vec2, axis: Axis, snap: bool) -> Point {
    if p.selected {
        Point { uncommited: dragged(p, c, axis, snap), ..p }
    } else {
        p
    }
}

/// The point after the primary button is released.
pub open spec fn release_point(p: Point) -> Point {
    if p.selected {
        Point { commited: p.uncommited, uncommited: p.uncommited, selected: false }
    } else {
        p
    }
}

/// Some point is being dragged.
pub open spec fn any_selected(ps: Seq<Point>) -> bool {
    exists|i: int| 0 <= i < ps.len() && (#[trigger] ps[i]).selected
}

/// A pointer position in the unit square.
pub open spec fn unit_pos(c: Vec2) -> bool {
    0 <= c.x <= SCALE && 0 <= c.y <= SCALE
}

proof fn lemma_round_between(dy: int, n: int, d: int)
    requires
        0 <= n < d,
    ensures
        dy >= 0 ==> 0 <= round_div(dy * n, d) <= dy,
        dy < 0 ==> dy <= round_div(dy * n, d) <= 0,
{
    let a = 2 * (dy * n) + d;
    let b = 2 * d;
    vstd::arithmetic::div_mod::lemma_fundamental_div_mod(a, b);
    vstd::arithmetic::div_mod::lemma_mod_bound(a, b);
    let q = a / b;
    let r = a % b;
    if dy >= 0 {
        assert(0 <= q <= dy) by (nonlinear_arith)
            requires
                a == b * q + r,
                0 <= r < b,
                a == 2 * (dy * n) + d,
                b == 2 * d,
                0 <= n < d,
                dy >= 0,
        {
        }
    } else {
        assert(dy <= q <= 0) by (nonlinear_arith)
            requires
                a == b * q + r,
                0 <= r < b,
                a == 2 * (dy * n) + d,
                b == 2 * d,
                0 <= n < d,
                dy < 0,
        {
        }
    }
}

impl Area {
    pub open spec fn wf(&self) -> bool {
        points_wf(self.points@)
    }

    /// The six default points: (0, 0.5), (0.2, 0.3), (0.4, 0.5), (0.8, 0.9),
    /// (0.85, 0.05) and (1, 0.5).
    pub fn new() -> (r: Area)
        ensures
            r.points@ == default_points(),
            r.wf(),
    {
        let mut points: Vec<Point> = Vec::new();
        points.push(Point::new(0, 5000));
        points.push(Point::new(2000, 3000));
        points.push(Point::new(4000, 5000));
        points.push(Point::new(8000, 9000));
        points.push(Point::new(8500, 500));
        points.push(Point::new(10000, 5000));
        let r = Area { points };
        proof {
            assert(r.points@ =~= default_points());
        }
        r
    }

    /// Adds a point at `p`, selected if `select_created`; nothing happens when
    /// `p.x` is at or beyond either end.
    pub fn insert(&mut self, p: Vec2, select_created: bool)
        requires
            old(self).wf(),
            !protected_x(p.x as int) ==> p.in_range(),
        ensures
            final(self).wf(),
            protected_x(p.x as int) ==> final(self).points@ == old(self).points@,
            !protected_x(p.x as int) ==> final(self).points@ == old(self).points@.push(
                Point { commited: p, uncommited: p, selected: select_created },
            ),
    {
        if p.x <= 0 {
            return;
        }
        if p.x >= SCALE {
            return;
        }
        self.points.push(Point { commited: p, uncommited: p, selected: select_created });
        proof {
            assert forall|i: int| 0 <= i < self.points@.len() implies (
            #[trigger] self.points@[i]).wf() by {
                if i < old(self).points@.len() {
                    assert(self.points@[i] == old(self).points@[i]);
                }
            }
        }
    }

    /// Removes the first point whose confirmed position is exactly `p`;
    /// nothing happens when `p.x` is at or beyond either end.
    pub fn delete(&mut self, p: Vec2)
        requires
            old(self).wf(),
        ensures
            final(self).wf(),
            final(self).points@ == deleted(old(self).points@, p),
            protected_x(p.x as int) ==> final(self).points@ == old(self).points@,
    {
        if p.x <= 0 {
            return;
        }
        if p.x >= SCALE {
            return;
        }
        let mut i: usize = 0;
        while i < self.points.len()
            invariant
                i <= self.points@.len(),
                self.points@ == old(self).points@,
                points_wf(old(self).points@),
                !protected_x(p.x as int),
                first_at(self.points@, p, 0) == first_at(self.points@, p, i as int),
            decreases self.points@.len() - i,
        {
            if self.points[i].commited == p {
                self.points.remove(i);
                proof {
                    let ps = old(self).points@;
                    assert(first_at(ps, p, i as int) == i);
                    assert(self.points@ =~= ps.remove(i as int));
                    assert forall|k: int| 0 <= k < self.points@.len() implies (
                    #[trigger] self.points@[k]).wf() by {
                        if k < i {
                            assert(self.points@[k] == ps[k]);
                            assert(ps[k].wf());
                        } else {
                            assert(self.points@[k] == ps[k + 1]);
                            assert(ps[k + 1].wf());
                        }
                    }
                }
                return;
            }
            i = i + 1;
        }
    }

    /// Index of the point nearest to `coord`, the first of several.
    fn closest_index(&self, coord: Vec2) -> (r: usize)
        requires
            self.wf(),
            self.points@.len() > 0,
            coord.in_range(),
        ensures
            is_closest(self.points@, coord, r as int),
    {
        let ps = &self.points;
        let mut best: usize = 0;
        let mut best_d = distance_sq(ps[0].commited, coord);
        let mut i: usize = 1;
        while i < ps.len()
            invariant
                1 <= i <= ps@.len(),
                best < i,
                points_wf(ps@),
                coord.in_range(),
                best_d == dist_sq(ps@[best as int].commited, coord),
                forall|j: int|
                    0 <= j < i ==> dist_sq(#[trigger] ps@[j].commited, coord) >= best_d,
                forall|j: int|
                    0 <= j < best ==> dist_sq(#[trigger] ps@[j].commited, coord) > best_d,
            decreases ps@.len() - i,
        {
            assert(ps@[i as int].wf());
            let d = distance_sq(ps[i].commited, coord);
            if d < best_d {
                best = i;
                best_d = d;
            }
            i = i + 1;
        }
        best
    }

    /// The point whose confirmed position is nearest to `coord`; of several
    /// at the same distance, the first.
    pub fn closest(&self, coord: Vec2) -> (r: Point)
        requires
            self.wf(),
            self.points@.len() > 0,
            coord.in_range(),
        ensures
            exists|i: int| is_closest(self.points@, coord, i) && r == self.points@[i],
    {
        let i = self.closest_index(coord);
        self.points[i]
    }

    /// Whether some point is being dragged.
    pub fn has_moving_points(&self) -> (r: bool)
        ensures
            r == any_selected(self.points@),
    {
        let mut i: usize = 0;
        while i < self.points.len()
            invariant
                i <= self.points@.len(),
                forall|j: int| 0 <= j < i ==> !(#[trigger] self.points@[j]).selected,
            decreases self.points@.len() - i,
        {
            if self.points[i].selected {
                return true;
            }
            i = i + 1;
        }
        false
    }

    /// The linear estimate of where a new point at `x` would sit, between the
    /// confirmed points that bracket `x` (of points that share an x, the last
    /// on the left and the first on the right). At or beyond either end it is
    /// the first or the last point by x.
    pub fn interpolate(&self, x: i64) -> (r: Vec2)
        requires
            self.wf(),
            self.points@.len() > 0,
            -COORD_LIMIT <= x <= COORD_LIMIT,
        ensures
            exists|w: (int, int, int, int)| bracket(self.points@, x as int, w),
            r == preview_at(self.points@, x as int),
            r.in_range(),
    {
        let ps = &self.points;
        let n = ps.len();
        let mut first: usize = 0;
        let mut last: usize = 0;
        let mut left: Option<usize> = None;
        let mut right: Option<usize> = None;
        let mut i: usize = 0;
        while i < n
            invariant
                n == ps@.len(),
                i <= n,
                n > 0,
                first < n,
                last < n,
                i > 0 ==> first < i && last < i,
                forall|j: int| 0 <= j < i ==> before_x(ps@, first as int, j),
                forall|j: int| 0 <= j < i ==> before_x(ps@, j, last as int),
                left is Some ==> {
                    let li = left->Some_0 as int;
                    &&& li < i
                    &&& ps@[li].commited.x <= x
                    &&& forall|j: int|
                        0 <= j < i && ps@[j].commited.x <= x ==> before_x(ps@, j, li)
                },
                left is None ==> forall|j: int| 0 <= j < i ==> ps@[j].commited.x > x,
                right is Some ==> {
                    let ri = right->Some_0 as int;
                    &&& ri < i
                    &&& ps@[ri].commited.x > x
                    &&& forall|j: int|
                        0 <= j < i && ps@[j].commited.x > x ==> before_x(ps@, ri, j)
                },
                right is None ==> forall|j: int| 0 <= j < i ==> ps@[j].commited.x <= x,
            decreases n - i,
        {
            let ghost (f0, l0, left0, right0) = (first, last, left, right);
            let px = ps[i].commited.x;
            if i == 0 || px < ps[first].commited.x {
                first = i;
            }
            if i == 0 || px >= ps[last].commited.x {
                last = i;
            }
            if px <= x {
                match left {
                    None => {
                        left = Some(i);
                    },
                    Some(li) => {
                        if px >= ps[li].commited.x {
                            left = Some(i);
                        }
                    },
                }
            } else {
                match right {
                    None => {
                        right = Some(i);
                    },
                    Some(ri) => {
                        if px < ps[ri].commited.x {
                            right = Some(i);
                        }
                    },
                }
            }
            proof {
                assert forall|j: int| 0 <= j < i + 1 implies before_x(ps@, first as int, j) by {
                    if j < i {
                        assert(before_x(ps@, f0 as int, j));
                    }
                }
                assert forall|j: int| 0 <= j < i + 1 implies before_x(ps@, j, last as int) by {
                    if j < i {
                        assert(before_x(ps@, j, l0 as int));
                    }
                }
                if left is Some {
                    let li = left->Some_0 as int;
                    assert forall|j: int|
                        0 <= j < i + 1 && ps@[j].commited.x <= x implies before_x(ps@, j, li) by {
                        if j < i && left0 is Some {
                            assert(before_x(ps@, j, left0->Some_0 as int));
                        }
                    }
                }
                if right is Some {
                    let ri = right->Some_0 as int;
                    assert forall|j: int|
                        0 <= j < i + 1 && ps@[j].commited.x > x implies before_x(ps@, ri, j) by {
                        if j < i && right0 is Some {
                            assert(before_x(ps@, right0->Some_0 as int, j));
                        }
                    }
                }
            }
            i = i + 1;
        }
        let l = match left {
            Some(li) => li,
            None => first,
        };
        let rt = match right {
            Some(ri) => ri,
            None => last,
        };
        proof {
            assert(ps@[first as int].wf());
            assert(ps@[last as int].wf());
            assert(ps@[l as int].wf());
            assert(ps@[rt as int].wf());
            assert(is_first_x(ps@, first as int));
            assert(is_last_x(ps@, last as int));
        }
        let lp = ps[l].commited;
        let rp = ps[rt].commited;
        let r = if x <= 0 {
            ps[first].commited
        } else if x >= SCALE {
            ps[last].commited
        } else if lp.x == rp.x {
            lp
        } else {
            proof {
                if left is None {
                    assert(before_x(ps@, first as int, rt as int));
                    assert(before_x(ps@, rt as int, first as int));
                }
                if right is None {
                    assert(before_x(ps@, l as int, last as int));
                    assert(before_x(ps@, last as int, l as int));
                }
                lemma_mul_abs(
                    rp.y - lp.y,
                    x - lp.x,
                    2 * COORD_LIMIT as int,
                    2 * COORD_LIMIT as int,
                );
                lemma_round_between(rp.y - lp.y, x - lp.x, rp.x - lp.x);
            }
            let dy: i128 = rp.y as i128 - lp.y as i128;
            let q = div_round(dy * (x as i128 - lp.x as i128), rp.x as i128 - lp.x as i128);
            Vec2 { x, y: (lp.y as i128 + q) as i64 }
        };
        proof {
            let v = (first as int, last as int, l as int, rt as int);
            assert(bracket(ps@, x as int, v));
            let w = choose|w: (int, int, int, int)| bracket(ps@, x as int, w);
            lemma_bracket_unique(ps@, x as int, v, w);
        }
        r
    }
}

/// The bracketing indices that `preview` takes: first and last by x, and
/// the points left and right of `x`, falling back on the first and the last.
pub open spec fn bracket(ps: Seq<Point>, x: int, w: (int, int, int, int)) -> bool {
    &&& is_first_x(ps, w.0)
    &&& is_last_x(ps, w.1)
    &&& (is_left_of(ps, x, w.2) || (w.2 == w.0 && forall|j: int|
        0 <= j < ps.len() ==> ps[j].commited.x > x))
    &&& (is_right_of(ps, x, w.3) || (w.3 == w.1 && forall|j: int|
        0 <= j < ps.len() ==> ps[j].commited.x <= x))
}

/// The linear preview at `x`, as `interpolate` computes it.
pub open spec fn preview_at(ps: Seq<Point>, x: int) -> Vec2 {
    let w = choose|w: (int, int, int, int)| bracket(ps, x, w);
    preview(ps, x, w.0, w.1, w.2, w.3)
}

/// The index of the point nearest to `c`, the first of several.
pub open spec fn closest_at(ps: Seq<Point>, c: Vec2) -> int {
    choose|i: int| is_closest(ps, c, i)
}

pub proof fn lemma_bracket_unique(ps: Seq<Point>, x: int, a: (int, int, int, int), b: (int, int, int, int))
    requires
        bracket(ps, x, a),
        bracket(ps, x, b),
    ensures
        a == b,
{
    assert(before_x(ps, a.0, b.0) && before_x(ps, b.0, a.0));
    assert(before_x(ps, a.1, b.1) && before_x(ps, b.1, a.1));
    if is_left_of(ps, x, a.2) && is_left_of(ps, x, b.2) {
        assert(before_x(ps, a.2, b.2) && before_x(ps, b.2, a.2));
    } else if is_left_of(ps, x, a.2) {
        assert(ps[a.2].commited.x > x);
    } else if is_left_of(ps, x, b.2) {
        assert(ps[b.2].commited.x > x);
    }
    if is_right_of(ps, x, a.3) && is_right_of(ps, x, b.3) {
        assert(before_x(ps, a.3, b.3) && before_x(ps, b.3, a.3));
    } else if is_right_of(ps, x, a.3) {
        assert(ps[a.3].commited.x <= x);
    } else if is_right_of(ps, x, b.3) {
        assert(ps[b.3].commited.x <= x);
    }
}

pub proof fn lemma_closest_unique(ps: Seq<Point>, c: Vec2, i: int, j: int)
    requires
        is_closest(ps, c, i),
        is_closest(ps, c, j),
    ensures
        i == j,
{
    if i < j {
        assert(dist_sq(ps[i].commited, c) > dist_sq(ps[j].commited, c));
    } else if j < i {
        assert(dist_sq(ps[j].commited, c) > dist_sq(ps[i].commited, c));
    }
}

/// The set after an insertion of `p`, as `Area::insert` does it.
pub open spec fn inserted(ps: Seq<Point>, p: Vec2, select_created: bool) -> Seq<Point> {
    if protected_x(p.x as int) {
        ps
    } else {
        ps.push(Point { commited: p, uncommited: p, selected: select_created })
    }
}

/// The set after the primary button is released.
pub open spec fn released(ps: Seq<Point>) -> Seq<Point> {
    ps.map_values(|p: Point| release_point(p))
}

/// The set after a drag update towards `c`.
pub open spec fn dragged_all(ps: Seq<Point>, c: Vec2, axis: Axis, snap: bool) -> Seq<Point> {
    ps.map_values(|p: Point| drag_point(p, c, axis, snap))
}

/// Squared activation radius.
pub open spec fn radius_sq() -> int {
    (ACTIVE_RADIUS * ACTIVE_RADIUS) as int
}

/// Squared distance under which a new point would duplicate one: 1.1 radii.
pub open spec fn crowd_sq() -> int {
    (CROWD_RADIUS * CROWD_RADIUS) as int
}

/// The set after a primary press at `c` tries to pick a point: every point
/// equal to the nearest one, if it lies within the radius, is selected.
pub open spec fn selected_at(ps: Seq<Point>, c: Vec2) -> Seq<Point> {
    if ps.len() == 0 {
        ps
    } else {
        let t = ps[closest_at(ps, c)];
        if dist_sq(t.commited, c) > radius_sq() {
            ps
        } else {
            ps.map_values(|p: Point| if p == t { Point { selected: true, ..p } } else { p })
        }
    }
}

/// The set after a primary press at `c` tries to create a point.
pub open spec fn created_at(ps: Seq<Point>, c: Vec2) -> Seq<Point> {
    if ps.len() == 0 || any_selected(ps) {
        ps
    } else {
        let g = preview_at(ps, c.x as int);
        let t = ps[closest_at(ps, c)];
        if dist_sq(t.commited, g) < crowd_sq() || dist_sq(c, g) > radius_sq() {
            ps
        } else {
            inserted(ps, g, true)
        }
    }
}

/// The set after a secondary press at `c` tries to delete a point.
pub open spec fn removed_at(ps: Seq<Point>, c: Vec2) -> Seq<Point> {
    if ps.len() == 0 || any_selected(ps) {
        ps
    } else {
        let t = ps[closest_at(ps, c)];
        if dist_sq(c, t.commited) > radius_sq() {
            ps
        } else {
            deleted(ps, t.commited)
        }
    }
}

/// What the pointer and the keys did during one frame.
#[derive(Clone, Copy, Debug, PartialEq, Eq)]
pub struct FrameInput {
    /// Pointer position in the unit square.
    pub coords: Vec2,
    pub primary_pressed: bool,
    pub primary_released: bool,
    pub secondary_pressed: bool,
    pub axis: Axis,
    pub snap: bool,
}

/// The set after one frame: release or selection, then deletion, then
/// creation, then the drag update.
pub open spec fn after_frame(ps: Seq<Point>, f: FrameInput) -> Seq<Point> {
    let a = if f.primary_released {
        released(ps)
    } else if f.primary_pressed {
        selected_at(ps, f.coords)
    } else {
        ps
    };
    let b = if f.secondary_pressed {
        removed_at(a, f.coords)
    } else {
        a
    };
    let c = if f.primary_pressed {
        created_at(b, f.coords)
    } else {
        b
    };
    dragged_all(c, f.coords, f.axis, f.snap)
}

impl Area {
    /// Ends every drag: the pending position becomes the confirmed one.
    pub fn release(&mut self)
        requires
            old(self).wf(),
        ensures
            final(self).wf(),
            final(self).points@ == released(old(self).points@),
            final(self).points@.len() == old(self).points@.len(),
            forall|i: int| 0 <= i < final(self).points@.len() ==> !(#[trigger] final(self).points@[i]).selected,
            forall|i: int|
                0 <= i < old(self).points@.len() && (#[trigger] old(self).points@[i]).selected
                    ==> final(self).points@[i].commited == old(self).points@[i].uncommited,
    {
        let n = self.points.len();
        let mut i: usize = 0;
        while i < n
            invariant
                n == self.points@.len(),
                n == old(self).points@.len(),
                i <= n,
                points_wf(old(self).points@),
                forall|j: int| 0 <= j < i ==> self.points@[j] == release_point(old(self).points@[j]),
                forall|j: int| i <= j < n ==> self.points@[j] == old(self).points@[j],
            decreases n - i,
        {
            let p = self.points[i];
            if p.selected {
                self.points.set(i, Point { commited: p.uncommited, uncommited: p.uncommited, selected: false });
            }
            i = i + 1;
        }
        proof {
            assert(self.points@ =~= released(old(self).points@));
            assert forall|j: int| 0 <= j < n implies (#[trigger] self.points@[j]).wf() by {
                assert(old(self).points@[j].wf());
            }
        }
    }

    /// A primary press at `c`: selects the nearest point (every point equal to
    /// it) if it lies within the activation radius.
    pub fn select_at(&mut self, c: Vec2)
        requires
            old(self).wf(),
            c.in_range(),
        ensures
            final(self).wf(),
            final(self).points@ == selected_at(old(self).points@, c),
    {
        let n = self.points.len();
        if n == 0 {
            return;
        }
        let k = self.closest_index(c);
        proof {
            lemma_closest_unique(self.points@, c, k as int, closest_at(self.points@, c));
            assert(self.points@[k as int].wf());
        }
        let t = self.points[k];
        if distance_sq(t.commited, c) > (ACTIVE_RADIUS * ACTIVE_RADIUS) as i128 {
            return;
        }
        let mut i: usize = 0;
        while i < n
            invariant
                n == self.points@.len(),
                n == old(self).points@.len(),
                i <= n,
                points_wf(old(self).points@),
                forall|j: int| 0 <= j < i ==> #[trigger] self.points@[j] == (if old(self).points@[j] == t {
                    Point { selected: true, ..old(self).points@[j] }
                } else {
                    old(self).points@[j]
                }),
                forall|j: int| i <= j < n ==> self.points@[j] == old(self).points@[j],
            decreases n - i,
        {
            let p = self.points[i];
            if p == t {
                self.points.set(i, Point { selected: true, ..p });
            }
            i = i + 1;
        }
        proof {
            assert(self.points@ =~= selected_at(old(self).points@, c));
            assert forall|j: int| 0 <= j < n implies (#[trigger] self.points@[j]).wf() by {
                assert(old(self).points@[j].wf());
            }
        }
    }

    /// Moves the pending position of every dragged point towards `c`, with
    /// the axis lock and the snap to one decimal; x then stays within
    /// [0.01, 0.99], and the two ends only move vertically.
    pub fn move_selected(&mut self, c: Vec2, axis: Axis, snap: bool)
        requires
            old(self).wf(),
            c.in_range(),
        ensures
            final(self).wf(),
            final(self).points@ == dragged_all(old(self).points@, c, axis, snap),
            final(self).points@.len() == old(self).points@.len(),
            forall|i: int|
                0 <= i < final(self).points@.len() && (#[trigger] final(self).points@[i]).selected
                    ==> drag_bounds(final(self).points@[i]),
    {
        let n = self.points.len();
        let mut i: usize = 0;
        while i < n
            invariant
                n == self.points@.len(),
                n == old(self).points@.len(),
                i <= n,
                c.in_range(),
                points_wf(old(self).points@),
                forall|j: int| 0 <= j < i ==> #[trigger] self.points@[j] == drag_point(old(self).points@[j], c, axis, snap),
                forall|j: int| 0 <= j < i ==> (#[trigger] self.points@[j]).wf(),
                forall|j: int| i <= j < n ==> self.points@[j] == old(self).points@[j],
            decreases n - i,
        {
            let p = self.points[i];
            proof {
                assert(old(self).points@[i as int].wf());
            }
            if p.selected {
                let mut x = if axis != Axis::OnlyY {
                    c.x
                } else {
                    p.commited.x
                };
                let mut y = if axis != Axis::OnlyX {
                    c.y
                } else {
                    p.commited.y
                };
                if snap {
                    x = roundf32(x, 1);
                    y = roundf32(y, 1);
                }
                if x < DRAG_MIN_X {
                    x = DRAG_MIN_X;
                } else if x > DRAG_MAX_X {
                    x = DRAG_MAX_X;
                }
                if p.commited.x == 0 {
                    x = 0;
                } else if p.commited.x == SCALE {
                    x = SCALE;
                }
                self.points.set(i, Point { uncommited: Vec2 { x, y }, ..p });
            }
            i = i + 1;
        }
        proof {
            assert(self.points@ =~= dragged_all(old(self).points@, c, axis, snap));
            assert forall|j: int| 0 <= j < n && (#[trigger] self.points@[j]).selected implies drag_bounds(self.points@[j]) by {
                lemma_drag_bounds(old(self).points@[j], c, axis, snap);
            }
        }
    }

    /// A primary press at `c` while nothing is dragged: adds a selected point
    /// at the linear preview for `c.x`, if the pointer is within the radius of
    /// it and no point lies within 1.1 radii of it.
    pub fn create_at(&mut self, c: Vec2)
        requires
            old(self).wf(),
            unit_pos(c),
        ensures
            final(self).wf(),
            final(self).points@ == created_at(old(self).points@, c),
    {
        if self.points.len() == 0 || self.has_moving_points() {
            return;
        }
        let g = self.interpolate(c.x);
        let k = self.closest_index(c);
        proof {
            lemma_closest_unique(self.points@, c, k as int, closest_at(self.points@, c));
            assert(self.points@[k as int].wf());
        }
        let t = self.points[k];
        if distance_sq(t.commited, g) < (CROWD_RADIUS * CROWD_RADIUS) as i128 {
            return;
        }
        if distance_sq(c, g) > (ACTIVE_RADIUS * ACTIVE_RADIUS) as i128 {
            return;
        }
        self.insert(g, true);
    }

    /// A secondary press at `c` while nothing is dragged: deletes the nearest
    /// point if the pointer is within the radius of it.
    pub fn delete_at(&mut self, c: Vec2)
        requires
            old(self).wf(),
            c.in_range(),
        ensures
            final(self).wf(),
            final(self).points@ == removed_at(old(self).points@, c),
    {
        if self.points.len() == 0 || self.has_moving_points() {
            return;
        }
        let k = self.closest_index(c);
        proof {
            lemma_closest_unique(self.points@, c, k as int, closest_at(self.points@, c));
            assert(self.points@[k as int].wf());
        }
        let t = self.points[k];
        if distance_sq(c, t.commited) > (ACTIVE_RADIUS * ACTIVE_RADIUS) as i128 {
            return;
        }
        self.delete(t.commited);
    }

    /// The point the pointer at `c` is over, if any: the nearest one, when
    /// within the activation radius.
    pub fn hovered(&self, c: Vec2) -> (r: Option<Point>)
        requires
            self.wf(),
            c.in_range(),
        ensures
            self.points@.len() == 0 ==> r is None,
            self.points@.len() > 0 ==> {
                let t = self.points@[closest_at(self.points@, c)];
                r == if dist_sq(t.commited, c) <= radius_sq() {
                    Some(t)
                } else {
                    None::<Point>
                }
            },
    {
        if self.points.len() == 0 {
            return None;
        }
        let k = self.closest_index(c);
        proof {
            lemma_closest_unique(self.points@, c, k as int, closest_at(self.points@, c));
            assert(self.points@[k as int].wf());
        }
        let t = self.points[k];
        if distance_sq(t.commited, c) <= (ACTIVE_RADIUS * ACTIVE_RADIUS) as i128 {
            Some(t)
        } else {
            None
        }
    }

    /// The candidate position a primary press at `c` would create a point
    /// at, shown when the pointer is within 1.1 activation radii of it.
    pub fn ghost_at(&self, c: Vec2) -> (r: Option<Vec2>)
        requires
            self.wf(),
            unit_pos(c),
        ensures
            self.points@.len() == 0 ==> r is None,
            self.points@.len() > 0 ==> {
                let g = preview_at(self.points@, c.x as int);
                r == if dist_sq(c, g) <= crowd_sq() {
                    Some(g)
                } else {
                    None::<Vec2>
                }
            },
    {
        if self.points.len() == 0 {
            return None;
        }
        let g = self.interpolate(c.x);
        if distance_sq(c, g) <= (CROWD_RADIUS * CROWD_RADIUS) as i128 {
            Some(g)
        } else {
            None
        }
    }

    /// Runs one frame of the interaction: release or selection first, then
    /// deletion, then creation, then the drag update.
    pub fn step(&mut self, f: &FrameInput)
        requires
            old(self).wf(),
            unit_pos(f.coords),
        ensures
            final(self).wf(),
            final(self).points@ == after_frame(old(self).points@, *f),
    {
        if f.primary_released {
            self.release();
        } else if f.primary_pressed {
            self.select_at(f.coords);
        }
        if f.secondary_pressed {
            self.delete_at(f.coords);
        }
        if f.primary_pressed {
            self.create_at(f.coords);
        }
        self.move_selected(f.coords, f.axis, f.snap);
    }
}

/// Where a dragged point's pending x may be: an end stays at its x, any
/// other point within [0.01, 0.99].
pub open spec fn drag_bounds(p: Point) -> bool {
    if p.commited.x == 0 || p.commited.x == SCALE {
        p.uncommited.x == p.commited.x
    } else {
        DRAG_MIN_X <= p.uncommited.x <= DRAG_MAX_X
    }
}

/// After a drag update, every dragged point's pending x lies within
/// [0.01, 0.99], except the two ends, which keep their x.
pub proof fn lemma_drag_bounds(p: Point, c: Vec2, axis: Axis, snap: bool)
    requires
        p.selected,
    ensures
        drag_point(p, c, axis, snap).selected,
        drag_bounds(drag_point(p, c, axis, snap)),
{
}

/// Insertion and deletion at either end leave the set as it is, so the
/// two ends stay for good.
pub proof fn lemma_ends_protected(ps: Seq<Point>, y: i64, select_created: bool)
    ensures
        inserted(ps, Vec2 { x: 0, y }, select_created) == ps,
        inserted(ps, Vec2 { x: SCALE, y }, select_created) == ps,
        deleted(ps, Vec2 { x: 0, y }) == ps,
        deleted(ps, Vec2 { x: SCALE, y }) == ps,
{
}

/// Right after a release no point is selected, and each point that was
/// dragged is confirmed where its pending position was.
pub proof fn lemma_release_commits(ps: Seq<Point>)
    ensures
        released(ps).len() == ps.len(),
        forall|i: int| 0 <= i < ps.len() ==> !(#[trigger] released(ps)[i]).selected,
        forall|i: int|
            0 <= i < ps.len() && (#[trigger] ps[i]).selected ==> released(ps)[i].commited
                == ps[i].uncommited,
{
}

} // verus!
