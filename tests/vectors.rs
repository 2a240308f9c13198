use polyrhythm::vectors::{Identity, Vector, UNIT};
use std::cmp::Ordering;

fn v(x: i64, y: i64) -> Vector<i64> {
    Vector { x, y }
}

#[test]
fn identities() {
    assert_eq!(Vector::<i64>::identity(), v(0, 0));
    assert_eq!(Vector::<i64>::const_identity(), v(0, 0));
    assert_eq!(<Vector<i64> as Identity>::identity(), v(0, 0));
    assert_eq!(Vector::<i64>::multiplicative_identity(), v(UNIT, UNIT));
}

#[test]
fn adding_the_negation_gives_zero() {
    for a in [v(3, -7), v(0, 0), v(-1_000_000, 2_500_000), v(i64::MAX, -i64::MAX)] {
        assert_eq!(a.add(a.neg()), Vector::<i64>::identity());
        assert_eq!(a.sub(a), Vector::<i64>::identity());
    }
}

#[test]
fn arithmetic() {
    assert_eq!(v(1, 2).add(v(10, 20)), v(11, 22));
    assert_eq!(v(1, 2).sub(v(10, 20)), v(-9, -18));
    assert_eq!(v(1, -2).neg(), v(-1, 2));
    assert_eq!(v(1, 2).dot(v(3, 4)), 11);
    assert_eq!(v(1, -2).scale(3), v(3, -6));
    let mut a = v(1, 2);
    a.add_assign(v(5, 5));
    assert_eq!(a, v(6, 7));
    a.sub_assign(v(1, 10));
    assert_eq!(a, v(5, -3));
}

#[test]
fn quadrant_order() {
    assert_eq!(v(1, 1).partial_cmp(&v(2, 2)), Some(Ordering::Less));
    assert_eq!(v(3, 3).partial_cmp(&v(2, 2)), Some(Ordering::Greater));
    assert_eq!(v(2, 2).partial_cmp(&v(2, 2)), Some(Ordering::Equal));
    assert_eq!(v(1, 3).partial_cmp(&v(2, 2)), None);
    assert_eq!(v(2, 1).partial_cmp(&v(2, 2)), None);
    assert!(v(1, 1) < v(2, 2));
    assert!(!(v(1, 3) < v(2, 2)));
}

#[test]
fn magnitude_rounds_down() {
    assert_eq!(v(3, 4).magnitude(), 5);
    assert_eq!(v(1, 1).magnitude(), 1);
    assert_eq!(v(3 * UNIT, -4 * UNIT).magnitude(), 5 * UNIT);
    assert_eq!(v(0, 0).magnitude(), 0);
    assert_eq!(v(99, 0).magnitude(), 99);
}

#[test]
fn distance_between_points() {
    assert_eq!(v(UNIT, UNIT).distance(v(4 * UNIT, 5 * UNIT)), 5 * UNIT);
    assert_eq!(v(7, 7).distance(v(7, 7)), 0);
}

#[test]
fn with_magnitude_rescales() {
    let r = v(3 * UNIT, 4 * UNIT).with_magnitude(10 * UNIT);
    assert_eq!(r, v(6 * UNIT, 8 * UNIT));
    assert_eq!(r.magnitude(), 10 * UNIT);
    assert_eq!(v(3 * UNIT, 4 * UNIT).with_magnitude(-5 * UNIT), v(-3 * UNIT, -4 * UNIT));
    let s = v(UNIT, 2 * UNIT).with_magnitude(7 * UNIT);
    assert!((s.magnitude() - 7 * UNIT).abs() <= 2);
}

#[test]
fn with_magnitude_of_zero_is_zero() {
    for m in [0, 1, 5 * UNIT, -UNIT] {
        assert_eq!(v(0, 0).with_magnitude(m), v(0, 0));
    }
}

#[test]
fn normalise_gives_unit_length() {
    assert_eq!(v(0, 2 * UNIT).normalise(), v(0, UNIT));
    assert_eq!(v(-3, 4).normalise(), v(-600_000, 800_000));
    assert_eq!(v(0, 0).normalise(), v(0, 0));
}

#[test]
fn clamp_magnitude_shortens_only() {
    assert_eq!(v(3 * UNIT, 4 * UNIT).clamp_magnitude(10 * UNIT), v(3 * UNIT, 4 * UNIT));
    assert_eq!(v(3 * UNIT, 4 * UNIT).clamp_magnitude(5 * UNIT), v(3 * UNIT, 4 * UNIT));
    assert_eq!(v(3 * UNIT, 4 * UNIT).clamp_magnitude(2_500_000), v(1_500_000, 2_000_000));
}

#[test]
fn clamp_between_corners() {
    let a = v(0, 10);
    let b = v(10, 0);
    assert_eq!(v(5, 5).clamp(a, b), v(5, 5));
    assert_eq!(v(-5, 20).clamp(a, b), v(0, 10));
    assert_eq!(v(15, -3).clamp(a, b), v(10, 0));
    assert_eq!(v(15, -3).clamp(b, a), v(10, 0));
    assert_eq!(v(4, 4).clamp(v(2, 2), v(2, 2)), v(2, 2));
}

#[test]
fn clamp_is_idempotent_and_bounded() {
    let corners = [(v(0, 10), v(10, 0)), (v(-4, -4), v(3, 9)), (v(5, 5), v(5, 5))];
    let points = [v(-20, 20), v(1, 1), v(100, -100), v(5, 5)];
    for (a, b) in corners {
        for p in points {
            let c = p.clamp(a, b);
            assert_eq!(c.clamp(a, b), c);
            assert!(a.x.min(b.x) <= c.x && c.x <= a.x.max(b.x));
            assert!(a.y.min(b.y) <= c.y && c.y <= a.y.max(b.y));
        }
    }
}

#[test]
fn move_towards_itself_stays() {
    let p = v(123, -456);
    for d in [0, 1, UNIT, -UNIT, 1 << 40] {
        assert_eq!(p.move_towards(p, d), p);
    }
}

#[test]
fn move_towards_by_full_distance_lands_on_target() {
    let pairs = [(v(0, 0), v(3 * UNIT, 4 * UNIT)), (v(5, -9), v(-17, 31)), (v(1, 1), v(2, 3))];
    for (a, b) in pairs {
        assert_eq!(a.move_towards(b, a.distance(b)), b);
    }
}

#[test]
fn move_towards_steps_and_stops() {
    let a = v(0, 0);
    let b = v(3 * UNIT, 4 * UNIT);
    assert_eq!(a.move_towards(b, 500_000), v(300_000, 400_000));
    assert_eq!(a.move_towards(b, 10 * UNIT), b);
    assert_eq!(a.move_towards(b, -UNIT), a);
}

#[test]
fn easing_curve_values() {
    assert_eq!(Vector::<i64>::lerp_value(0), 0);
    assert_eq!(Vector::<i64>::lerp_value(UNIT), UNIT);
    assert_eq!(Vector::<i64>::lerp_value(2 * UNIT), UNIT);
    assert_eq!(Vector::<i64>::lerp_value(UNIT / 2), 781_250);
    assert_eq!(Vector::<i64>::lerp_value_derivative(0), 2_250_000);
    assert_eq!(Vector::<i64>::lerp_value_derivative(UNIT / 2), 937_500);
    assert_eq!(Vector::<i64>::lerp_value_derivative(UNIT), 0);
    assert_eq!(Vector::<i64>::lerp_value_derivative(2 * UNIT), 0);
}

#[test]
fn root_finder_inverts_the_curve() {
    for x in [0, 250_000, 500_000, 750_000, 1_000_000] {
        let t = Vector::<i64>::find_t_from_x(x);
        assert!((Vector::<i64>::lerp_value(t) - x).abs() <= 2, "x = {}, t = {}", x, t);
    }
    assert_eq!(Vector::<i64>::find_t_from_x(250_000), 120_615);
    assert_eq!(Vector::<i64>::find_t_from_x(-100_000), -43_192);
}

#[test]
fn root_finder_above_the_curve_gives_one() {
    assert_eq!(Vector::<i64>::find_t_from_x(1_000_001), UNIT);
    assert_eq!(Vector::<i64>::find_t_from_x(1_010_000), UNIT);
}

#[test]
fn lerp_eases_along_segment() {
    let a = v(0, 0);
    let b = v(2 * UNIT, 0);
    assert_eq!(v(0, 0).lerp(a, b, UNIT), v(44_696, 0));
    assert_eq!(v(UNIT, 0).lerp(a, b, UNIT), v(1_029_740, 0));
    assert_eq!(v(1_980_000, 0).lerp(a, b, UNIT), v(1_983_426, 0));
    assert_eq!(v(2 * UNIT, 0).lerp(a, b, UNIT), b);
    assert_eq!(v(5, 5).lerp(b, b, UNIT), b);
}

#[test]
fn short_vectors_rescale_to_full_length() {
    assert_eq!(v(1, 1).with_magnitude(UNIT), v(707_106, 707_106));
    assert_eq!(v(1, 1).normalise(), v(707_106, 707_106));
    for a in [v(1, 1), v(1, 0), v(-2, 3), v(5, -7), v(1, 2)] {
        let len = a.normalise().magnitude();
        assert!(UNIT - 4 <= len && len <= UNIT, "{:?} gives {}", a, len);
        let len = a.with_magnitude(-3 * UNIT).magnitude();
        assert!(3 * UNIT - 4 <= len && len <= 3 * UNIT, "{:?} gives {}", a, len);
    }
}

#[test]
fn fixed_point_scaling() {
    assert_eq!(v(3 * UNIT, -4 * UNIT).scale_fixed(UNIT / 2), v(1_500_000, -2_000_000));
    assert_eq!(v(3, -3).scale_fixed(UNIT / 2), v(1, -1));
    assert_eq!(v(UNIT, UNIT).scale_fixed(2 * UNIT), v(2 * UNIT, 2 * UNIT));
}
