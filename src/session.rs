use vstd::prelude::*;

use crate::area::{Area, Point};
use crate::encoders::{decode, decode_from, decode_text, lemma_decode_in_range};
use crate::geometry::{round_to, roundf32, Vec2, SCALE};
use crate::status::{StatusBar, ERROR_TTL, INFO_TTL};
use crate::text::{chars_of, push_chars, string_of};

verus! {

/// Confirmed positions of two lists differ, or their lengths do.
pub open spec fn differs(prev: Seq<Point>, next: Seq<Point>) -> bool {
    prev.len() != next.len() || exists|i: int|
        0 <= i < prev.len() && (#[trigger] prev[i]).commited != next[i].commited
}

/// The file a curve was loaded from, and the points as last loaded or saved.
pub struct AttachedFile {
    pub attached: bool,
    pub file_path: String,
    pub dirty: bool,
    pub state: Vec<Point>,
}

/// Whether the confirmed positions of `next` differ from those of `prev`.
pub fn is_dirty(prev: &Vec<Point>, next: &Vec<Point>) -> (r: bool)
    ensures
        r == differs(prev@, next@),
{
    if prev.len() != next.len() {
        return true;
    }
    let mut n: usize = 0;
    while n < prev.len()
        invariant
            n <= prev@.len(),
            prev@.len() == next@.len(),
            forall|i: int| 0 <= i < n ==> (#[trigger] prev@[i]).commited == next@[i].commited,
        decreases prev@.len() - n,
    {
        if prev[n].commited.x != next[n].commited.x {
            return true;
        }
        if prev[n].commited.y != next[n].commited.y {
            return true;
        }
        n = n + 1;
    }
    false
}

/// A copy of the points.
pub fn copy_points(ps: &Vec<Point>) -> (r: Vec<Point>)
    ensures
        r@ == ps@,
{
    let mut r: Vec<Point> = Vec::new();
    let mut i: usize = 0;
    while i < ps.len()
        invariant
            i <= ps@.len(),
            r@ == ps@.take(i as int),
        decreases ps@.len() - i,
    {
        r.push(ps[i]);
        i = i + 1;
        proof {
            assert(ps@.take(i as int) =~= ps@.take(i - 1).push(ps@[i - 1]));
        }
    }
    proof {
        assert(ps@.take(i as int) =~= ps@);
    }
    r
}

/// The confirmed positions, in order.
pub fn committed_positions(ps: &Vec<Point>) -> (r: Vec<Vec2>)
    ensures
        r@ == ps@.map_values(|p: Point| p.commited),
{
    let mut r: Vec<Vec2> = Vec::new();
    let mut i: usize = 0;
    while i < ps.len()
        invariant
            i <= ps@.len(),
            r@ == ps@.take(i as int).map_values(|p: Point| p.commited),
        decreases ps@.len() - i,
    {
        r.push(ps[i].commited);
        i = i + 1;
        proof {
            assert(ps@.take(i as int).map_values(|p: Point| p.commited) =~= ps@.take(i - 1).map_values(
                |p: Point| p.commited,
            ).push(ps@[i - 1].commited));
        }
    }
    proof {
        assert(ps@.take(i as int) =~= ps@);
    }
    r
}

impl AttachedFile {
    pub fn new() -> (r: AttachedFile)
        ensures
            !r.attached,
            !r.dirty,
            r.file_path@.len() == 0,
            r.state@.len() == 0,
    {
        AttachedFile { attached: false, file_path: String::new(), dirty: false, state: Vec::new() }
    }

    /// Marks the file dirty once the points differ from the saved state; a
    /// dirty file stays dirty.
    pub fn set_dirty_state(&mut self, points: &Vec<Point>)
        ensures
            final(self).dirty == (old(self).dirty || differs(old(self).state@, points@)),
            final(self).state == old(self).state,
            final(self).attached == old(self).attached,
            final(self).file_path == old(self).file_path,
    {
        if self.dirty {
            return;
        }
        if is_dirty(&self.state, points) {
            self.dirty = true;
        }
    }

    /// Attaches the file at `path`, whose content `points` were just loaded.
    pub fn attach(&mut self, path: String, points: &Vec<Point>)
        ensures
            final(self).attached,
            !final(self).dirty,
            final(self).file_path == path,
            final(self).state@ == points@,
    {
        self.state = copy_points(points);
        self.attached = true;
        self.dirty = false;
        self.file_path = path;
    }

    /// Whether a save request has something to write, and a place to write it.
    pub fn should_save(&self) -> (r: bool)
        ensures
            r == (self.dirty && self.attached),
    {
        self.dirty && self.attached
    }

    /// Records the outcome of writing `points` to the attached file: on
    /// success the file is clean, holds `points` and an info message says
    /// so; on failure nothing changes but the error message.
    pub fn record_save(
        &mut self,
        status_bar: &mut StatusBar,
        outcome: Result<(), String>,
        points: &Vec<Point>,
    )
        ensures
            final(self).attached == old(self).attached,
            final(self).file_path == old(self).file_path,
            outcome is Ok ==> {
                &&& !final(self).dirty
                &&& final(self).state@ == points@
                &&& final(status_bar).info.text@ == "file "@ + old(self).file_path@ + " saved!"@
                &&& final(status_bar).info.ttl == INFO_TTL
                &&& final(status_bar).error == old(status_bar).error
                &&& final(status_bar).hint == old(status_bar).hint
            },
            outcome is Err ==> {
                &&& final(self).dirty == old(self).dirty
                &&& final(self).state == old(self).state
                &&& final(status_bar).error.text@ == "failed save: "@ + outcome->Err_0@
                &&& final(status_bar).error.ttl == ERROR_TTL
                &&& final(status_bar).info == old(status_bar).info
                &&& final(status_bar).hint == old(status_bar).hint
            },
    {
        match outcome {
            Ok(()) => {
                let mut msg = chars_of("file ");
                let path = chars_of(self.file_path.as_str());
                push_chars(&mut msg, &path);
                let tail = chars_of(" saved!");
                push_chars(&mut msg, &tail);
                let text = string_of(&msg);
                status_bar.show_info(text.as_str());
                self.mark_saved(points);
            },
            Err(e) => {
                let mut msg = chars_of("failed save: ");
                let ec = chars_of(e.as_str());
                push_chars(&mut msg, &ec);
                let text = string_of(&msg);
                status_bar.show_error(text.as_str());
            },
        }
    }

    /// Records that `points` were written.
    pub fn mark_saved(&mut self, points: &Vec<Point>)
        ensures
            !final(self).dirty,
            final(self).state@ == points@,
            final(self).attached == old(self).attached,
            final(self).file_path == old(self).file_path,
    {
        self.dirty = false;
        self.state = copy_points(points);
    }
}

/// The pointer position in the unit square.
pub struct MousePlot {
    pub coords: Vec2,
}

/// `v` kept within [0, 1].
pub open spec fn clamp_unit(v: int) -> int {
    if v < 0 {
        0
    } else if v > SCALE {
        SCALE as int
    } else {
        v
    }
}

impl MousePlot {
    pub fn new() -> (r: MousePlot)
        ensures
            r.coords == (Vec2 { x: 0, y: 0 }),
    {
        MousePlot { coords: Vec2 { x: 0, y: 0 } }
    }

    /// Takes a pointer position relative to the plot, in units, with y
    /// growing downwards: kept within the unit square, rounded to two
    /// decimals, and y turned to grow upwards.
    pub fn update(&mut self, rel_x: i64, rel_y: i64)
        ensures
            final(self).coords.x == round_to(clamp_unit(rel_x as int), 100),
            final(self).coords.y == SCALE - round_to(clamp_unit(rel_y as int), 100),
            0 <= final(self).coords.x <= SCALE,
            0 <= final(self).coords.y <= SCALE,
    {
        let cx = if rel_x < 0 {
            0
        } else if rel_x > SCALE {
            SCALE
        } else {
            rel_x
        };
        let cy = if rel_y < 0 {
            0
        } else if rel_y > SCALE {
            SCALE
        } else {
            rel_y
        };
        let x = roundf32(cx, 2);
        let y = roundf32(cy, 2);
        self.coords = Vec2 { x, y: SCALE - y };
    }
}

/// The points of freshly loaded content: confirmed, idle.
pub open spec fn loaded(ps: Seq<Vec2>) -> Seq<Point> {
    ps.map_values(|p: Vec2| Point { commited: p, uncommited: p, selected: false })
}

/// Replaces the points with the decoded `data`, or shows why it could not be
/// read and leaves them. Returns whether the points were replaced.
pub fn apply_content(area: &mut Area, status_bar: &mut StatusBar, data: &str) -> (r: bool)
    requires
        old(area).wf(),
    ensures
        final(area).wf(),
        r <==> decode_text(data@) is Ok,
        decode_text(data@) is Ok ==> final(area).points@ == loaded(decode_text(data@)->Ok_0),
        decode_text(data@) is Ok ==> *final(status_bar) == *old(status_bar),
        decode_text(data@) is Err ==> {
            &&& final(area).points@ == old(area).points@
            &&& final(status_bar).error.text@ == "invalid format: "@ + decode_text(data@)->Err_0
            &&& final(status_bar).error.ttl == ERROR_TTL
            &&& final(status_bar).info == old(status_bar).info
            &&& final(status_bar).hint == old(status_bar).hint
        },
{
    match decode(data.to_owned()) {
        Err(e) => {
            let mut msg = chars_of("invalid format: ");
            let ec = chars_of(e.as_str());
            push_chars(&mut msg, &ec);
            let text = string_of(&msg);
            status_bar.show_error(text.as_str());
            false
        },
        Ok(content) => {
            proof {
                lemma_decode_in_range(data@, 1);
                assert(content@ == decode_from(data@, 1)->Ok_0);
                assert forall|k: int| 0 <= k < content@.len() implies (#[trigger] content@[k]).in_range() by {
                    assert(decode_from(data@, 1)->Ok_0[k].in_range());
                }
            }
            let mut points: Vec<Point> = Vec::new();
            let mut i: usize = 0;
            while i < content.len()
                invariant
                    i <= content@.len(),
                    forall|k: int| 0 <= k < content@.len() ==> (#[trigger] content@[k]).in_range(),
                    points@ == loaded(content@.take(i as int)),
                decreases content@.len() - i,
            {
                let p = content[i];
                points.push(Point { commited: p, uncommited: p, selected: false });
                i = i + 1;
                proof {
                    assert(loaded(content@.take(i as int)) =~= loaded(content@.take(i - 1)).push(
                        Point { commited: p, uncommited: p, selected: false },
                    ));
                }
            }
            proof {
                assert(content@.take(i as int) =~= content@);
                assert forall|k: int| 0 <= k < points@.len() implies (#[trigger] points@[k]).wf() by {
                    assert(content@[k].in_range());
                }
            }
            area.points = points;
            true
        },
    }
}

} // verus!
