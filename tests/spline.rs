use curve_editor::{lerp, sample, Vec2};

fn default_curve() -> Vec<Vec2> {
    vec![
        Vec2::new(0, 5000),
        Vec2::new(2000, 3000),
        Vec2::new(4000, 5000),
        Vec2::new(8000, 9000),
        Vec2::new(8500, 500),
        Vec2::new(10000, 5000),
    ]
}

#[test]
fn sample_with_no_points_is_zero() {
    for t in [-10000, 0, 5000, 10000, 20000] {
        assert_eq!(sample(&[], t), 0);
    }
}

#[test]
fn sample_with_one_point_is_constant() {
    for t in [-10000, 0, 5000, 10000, 20000] {
        assert_eq!(sample(&[Vec2::new(3000, 7000)], t), 7000);
    }
}

#[test]
fn sample_with_two_points_is_linear_in_t() {
    let ps = [Vec2::new(0, 0), Vec2::new(10000, 10000)];
    assert_eq!(sample(&ps, 5000), 5000);
    assert_eq!(sample(&[Vec2::new(2000, 1000), Vec2::new(3000, 3000)], 2500), 1500);
}

#[test]
fn sample_with_three_points_ignores_the_middle() {
    let ps = [Vec2::new(0, 1000), Vec2::new(5000, 9000), Vec2::new(10000, 3000)];
    assert_eq!(sample(&ps, 5000), 2000);
}

#[test]
fn sample_clamps_at_the_ends() {
    let ps = default_curve();
    assert_eq!(sample(&ps, -10000), 5000);
    assert_eq!(sample(&ps, 0), 5000);
    assert_eq!(sample(&ps, 20000), 5000);
    let ps = [Vec2::new(0, 100), Vec2::new(1000, 2000), Vec2::new(2000, 3000), Vec2::new(10000, 9000)];
    assert_eq!(sample(&ps, -10000), 100);
    assert_eq!(sample(&ps, 20000), 9000);
}

#[test]
fn sample_catmull_rom_values() {
    let ps = default_curve();
    assert_eq!(sample(&ps, 1000), 3762);
    assert_eq!(sample(&ps, 2000), 3000);
    assert_eq!(sample(&ps, 3000), 3750);
    assert_eq!(sample(&ps, 6000), 8000);
    assert_eq!(sample(&ps, 9000), 910);
    assert_eq!(sample(&ps, 9999), 4997);
}

#[test]
fn sample_on_a_straight_line() {
    let ps = [
        Vec2::new(0, 0),
        Vec2::new(2500, 2500),
        Vec2::new(5000, 5000),
        Vec2::new(7500, 7500),
        Vec2::new(10000, 10000),
    ];
    assert_eq!(sample(&ps, 5000), 5000);
    assert_eq!(sample(&ps, 6250), 6250);
    assert_eq!(sample(&ps, 1000), 986);
}

#[test]
fn lerp_values() {
    assert_eq!(lerp(0, 10000, 2500), 2500);
    assert_eq!(lerp(1000, 3000, 5000), 2000);
    assert_eq!(lerp(1000, 3000, 15000), 4000);
    assert_eq!(lerp(0, 1, 5000), 1);
    assert_eq!(lerp(0, -1, 5000), 0);
}
