use curve_editor::{
    apply_content, committed_positions, is_dirty, roundf32, Area, AttachedFile, Axis, FrameInput,
    MousePlot, Point, StatusBar, Vec2,
};

fn committed(area: &Area) -> Vec<Vec2> {
    committed_positions(&area.points)
}

fn frame(x: i64, y: i64) -> FrameInput {
    FrameInput {
        coords: Vec2::new(x, y),
        primary_pressed: false,
        primary_released: false,
        secondary_pressed: false,
        axis: Axis::Both,
        snap: false,
    }
}

#[test]
fn new_area_has_the_default_points() {
    let area = Area::new();
    assert_eq!(
        committed(&area),
        vec![
            Vec2::new(0, 5000),
            Vec2::new(2000, 3000),
            Vec2::new(4000, 5000),
            Vec2::new(8000, 9000),
            Vec2::new(8500, 500),
            Vec2::new(10000, 5000),
        ]
    );
    assert!(!area.has_moving_points());
}

#[test]
fn insert_and_delete_protect_the_ends() {
    let mut area = Area::new();
    area.insert(Vec2::new(0, 2000), false);
    area.insert(Vec2::new(10000, 2000), false);
    area.insert(Vec2::new(-1, 2000), false);
    assert_eq!(area.points.len(), 6);
    area.delete(Vec2::new(0, 5000));
    area.delete(Vec2::new(10000, 5000));
    assert_eq!(area.points.len(), 6);
    area.insert(Vec2::new(6000, 2000), true);
    assert_eq!(area.points.len(), 7);
    assert_eq!(area.points[6], Point { commited: Vec2::new(6000, 2000), uncommited: Vec2::new(6000, 2000), selected: true });
    area.delete(Vec2::new(6000, 2001));
    assert_eq!(area.points.len(), 7);
    area.delete(Vec2::new(6000, 2000));
    assert_eq!(area.points.len(), 6);
}

#[test]
fn delete_removes_only_the_first_match() {
    let mut area = Area::new();
    area.insert(Vec2::new(5000, 5000), false);
    area.insert(Vec2::new(5000, 5000), true);
    area.delete(Vec2::new(5000, 5000));
    assert_eq!(area.points.len(), 7);
    assert!(area.points[6].selected);
}

#[test]
fn closest_picks_the_nearest_and_the_first_of_ties() {
    let area = Area::new();
    assert_eq!(area.closest(Vec2::new(2100, 3100)).commited, Vec2::new(2000, 3000));
    assert_eq!(area.closest(Vec2::new(3000, 4000)).commited, Vec2::new(2000, 3000));
    assert_eq!(area.closest(Vec2::new(9900, 5000)).commited, Vec2::new(10000, 5000));
}

#[test]
fn interpolate_is_linear_between_neighbours() {
    let area = Area::new();
    assert_eq!(area.interpolate(3000), Vec2::new(3000, 4000));
    assert_eq!(area.interpolate(8200), Vec2::new(8200, 5600));
    assert_eq!(area.interpolate(2000), Vec2::new(2000, 3000));
    assert_eq!(area.interpolate(0), Vec2::new(0, 5000));
    assert_eq!(area.interpolate(-500), Vec2::new(0, 5000));
    assert_eq!(area.interpolate(12000), Vec2::new(10000, 5000));
}

#[test]
fn drag_clamps_x_and_pins_the_ends() {
    let mut area = Area::new();
    area.points[0].selected = true;
    area.points[1].selected = true;
    area.move_selected(Vec2::new(9950, 7000), Axis::Both, false);
    assert_eq!(area.points[0].uncommited, Vec2::new(0, 7000));
    assert_eq!(area.points[1].uncommited, Vec2::new(9900, 7000));
    assert_eq!(area.points[1].commited, Vec2::new(2000, 3000));
    area.move_selected(Vec2::new(20, 7000), Axis::Both, false);
    assert_eq!(area.points[1].uncommited, Vec2::new(100, 7000));
    assert_eq!(area.points[2].uncommited, Vec2::new(4000, 5000));
}

#[test]
fn drag_honours_axis_lock_and_snap() {
    let mut area = Area::new();
    area.points[2].selected = true;
    area.move_selected(Vec2::new(4300, 6600), Axis::OnlyX, false);
    assert_eq!(area.points[2].uncommited, Vec2::new(4300, 5000));
    area.move_selected(Vec2::new(4300, 6600), Axis::OnlyY, false);
    assert_eq!(area.points[2].uncommited, Vec2::new(4000, 6600));
    area.move_selected(Vec2::new(4300, 6600), Axis::Both, true);
    assert_eq!(area.points[2].uncommited, Vec2::new(4000, 7000));
    area.move_selected(Vec2::new(4500, 6500), Axis::Both, true);
    assert_eq!(area.points[2].uncommited, Vec2::new(5000, 7000));
}

#[test]
fn release_commits_every_drag() {
    let mut area = Area::new();
    area.points[3].selected = true;
    area.move_selected(Vec2::new(7000, 8000), Axis::Both, false);
    area.release();
    assert!(!area.has_moving_points());
    assert_eq!(area.points[3].commited, Vec2::new(7000, 8000));
    assert_eq!(area.points[3].uncommited, Vec2::new(7000, 8000));
}

#[test]
fn a_gesture_selects_drags_and_commits() {
    let mut area = Area::new();
    let mut f = frame(2100, 3100);
    f.primary_pressed = true;
    area.step(&f);
    assert_eq!(area.points.len(), 6);
    assert!(area.points[1].selected);
    assert_eq!(area.points[1].uncommited, Vec2::new(2100, 3100));
    area.step(&frame(2500, 3500));
    assert_eq!(area.points[1].uncommited, Vec2::new(2500, 3500));
    let mut f = frame(2600, 3600);
    f.primary_released = true;
    area.step(&f);
    assert!(!area.has_moving_points());
    assert_eq!(area.points[1].commited, Vec2::new(2500, 3500));
}

#[test]
fn a_press_on_the_preview_creates_a_point() {
    let mut area = Area::new();
    let mut f = frame(3000, 4100);
    f.primary_pressed = true;
    area.step(&f);
    assert_eq!(area.points.len(), 7);
    assert_eq!(area.points[6].commited, Vec2::new(3000, 4000));
    assert!(area.points[6].selected);
    assert_eq!(area.points[6].uncommited, Vec2::new(3000, 4100));
}

#[test]
fn a_press_away_from_the_preview_creates_nothing() {
    let mut area = Area::new();
    area.create_at(Vec2::new(3000, 6000));
    assert_eq!(area.points.len(), 6);
    area.create_at(Vec2::new(2100, 3100));
    assert_eq!(area.points.len(), 6);
}

#[test]
fn a_secondary_press_deletes_the_point_under_the_pointer() {
    let mut area = Area::new();
    let mut f = frame(4100, 5100);
    f.secondary_pressed = true;
    area.step(&f);
    assert_eq!(area.points.len(), 5);
    area.delete_at(Vec2::new(100, 5000));
    assert_eq!(area.points.len(), 5);
    area.delete_at(Vec2::new(6000, 5000));
    assert_eq!(area.points.len(), 5);
}

#[test]
fn dirty_tracking_compares_committed_positions() {
    let area = Area::new();
    let mut file = AttachedFile::new();
    assert!(is_dirty(&file.state, &area.points));
    file.attach(String::from("curve.txt"), &area.points);
    assert!(!file.dirty);
    assert!(!file.should_save());
    let mut moved = Area::new();
    moved.points[2].selected = true;
    file.set_dirty_state(&moved.points);
    assert!(!file.dirty);
    moved.points[2].commited = Vec2::new(4000, 5001);
    file.set_dirty_state(&moved.points);
    assert!(file.dirty);
    assert!(file.should_save());
    file.mark_saved(&moved.points);
    assert!(!file.dirty);
    assert!(!is_dirty(&file.state, &moved.points));
}

#[test]
fn mouse_coordinates_are_clamped_rounded_and_flipped() {
    let mut m = MousePlot::new();
    m.update(1234, 2250);
    assert_eq!(m.coords, Vec2::new(1200, 7700));
    m.update(-50, 12000);
    assert_eq!(m.coords, Vec2::new(0, 0));
    m.update(9999, -1);
    assert_eq!(m.coords, Vec2::new(10000, 10000));
}

#[test]
fn roundf32_rounds_half_away_from_zero() {
    assert_eq!(roundf32(4500, 1), 5000);
    assert_eq!(roundf32(4499, 1), 4000);
    assert_eq!(roundf32(-4500, 1), -5000);
    assert_eq!(roundf32(1234, 2), 1200);
    assert_eq!(roundf32(1250, 2), 1300);
    assert_eq!(roundf32(1234, 4), 1234);
    assert_eq!(roundf32(15000, 0), 20000);
}

#[test]
fn apply_content_replaces_or_reports() {
    let mut area = Area::new();
    let mut bar = StatusBar::new();
    assert!(!apply_content(&mut area, &mut bar, "0.1:0.2\nbad\n"));
    assert_eq!(area.points.len(), 6);
    assert_eq!(bar.error.text, "invalid format: line 2: unexpected data bad");
    assert!(apply_content(&mut area, &mut bar, "0.0:0.1\n1.0:0.9\n"));
    assert_eq!(
        area.points,
        vec![Point::new(0, 1000), Point::new(10000, 9000)]
    );
}

#[test]
fn record_save_keeps_state_on_failure() {
    let area = Area::new();
    let mut file = AttachedFile::new();
    let mut bar = StatusBar::new();
    file.attach(String::from("curve.txt"), &vec![]);
    file.set_dirty_state(&area.points);
    assert!(file.dirty);
    file.record_save(&mut bar, Err(String::from("disk full")), &area.points);
    assert!(file.dirty);
    assert_eq!(file.state.len(), 0);
    assert_eq!(bar.error.text, "failed save: disk full");
    assert_eq!(bar.info.ttl, 0);
    file.record_save(&mut bar, Ok(()), &area.points);
    assert!(!file.dirty);
    assert_eq!(file.state, area.points);
    assert_eq!(bar.info.text, "file curve.txt saved!");
    assert_eq!(bar.info.ttl, 3000);
}

#[test]
fn protected_ends_ignore_any_height() {
    let mut area = Area::new();
    area.insert(Vec2::new(0, i64::MAX), true);
    area.insert(Vec2::new(10000, i64::MIN), true);
    area.delete(Vec2::new(0, i64::MAX));
    assert_eq!(area.points.len(), 6);
}

#[test]
fn drag_outside_the_unit_square_still_clamps_x() {
    let mut area = Area::new();
    area.points[2].selected = true;
    area.points[5].selected = true;
    area.move_selected(Vec2::new(-30000, 25000), Axis::Both, true);
    assert_eq!(area.points[2].uncommited, Vec2::new(100, 25000));
    assert_eq!(area.points[5].uncommited, Vec2::new(10000, 25000));
}
