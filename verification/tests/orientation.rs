use cgmath::Deg;
use cgmath::InnerSpace;
use cgmath::Quaternion;
use cgmath::Rotation;
use cgmath::Rotation3;
use cgmath::Vector3;
use tethys::orientation::compose;
use tethys::orientation::from_quat;
use tethys::orientation::rotate_by_quat;
use tethys::orientation::rotate_integer;
use tethys::orientation::to_quat;
use tethys::orientation::Quat;
use tethys::orientation::CODES;
use tethys::orientation::IDENTITY;

/// The rotation of a code in floating point: a turn about the first or the
/// second axis, in front of a half turn about the third.
fn float_table(code: u8) -> Quaternion<f64> {
    let rz = [
        Quaternion::new(1., 0., 0., 0.),
        Quaternion::new(0., 0., 0., 1.),
        Quaternion::new(-1., 0., 0., 0.),
        Quaternion::new(0., 0., 0., -1.),
    ][(code % 4) as usize];
    match code / 4 {
        0 => rz,
        1 => Quaternion::from_axis_angle(Vector3::new(1., 0., 0.), Deg(90.)) * rz,
        2 => Quaternion::from_axis_angle(Vector3::new(0., 1., 0.), Deg(90.)) * rz,
        _ => Quaternion::from_axis_angle(Vector3::new(1., 0., 0.), Deg(180.)) * rz,
    }
}

fn as_float(q: Quat) -> Quaternion<f64> {
    Quaternion::new(q.s as f64, q.x as f64, q.y as f64, q.z as f64).normalize()
}

fn distance2(a: Quaternion<f64>, b: Quaternion<f64>) -> f64 {
    (a - b).magnitude2()
}

#[test]
fn table_matches_the_rotations_in_floating_point() {
    for code in 0..CODES {
        let d = distance2(as_float(to_quat(code)), float_table(code));
        assert!(d < 1e-24, "code {} is off by {}", code, d);
    }
}

#[test]
fn table_entries_are_exact() {
    assert_eq!(to_quat(0), Quat::new(1, 0, 0, 0));
    assert_eq!(to_quat(1), Quat::new(0, 0, 0, 1));
    assert_eq!(to_quat(2), Quat::new(-1, 0, 0, 0));
    assert_eq!(to_quat(3), Quat::new(0, 0, 0, -1));
    assert_eq!(to_quat(4), Quat::new(1, 1, 0, 0));
    assert_eq!(to_quat(9), Quat::new(0, 1, 0, 1));
    assert_eq!(to_quat(12), Quat::new(0, 1, 0, 0));
    assert_eq!(to_quat(15), Quat::new(0, 0, 1, 0));
}

#[test]
fn every_code_is_the_code_of_its_rotation() {
    for code in 0..CODES {
        assert_eq!(from_quat(to_quat(code)), code);
    }
}

#[test]
fn identity_is_neutral_on_both_sides() {
    for code in 0..CODES {
        assert_eq!(compose(code, IDENTITY), code);
        assert_eq!(compose(IDENTITY, code), code);
    }
}

#[test]
fn from_quat_ignores_the_length() {
    for code in 0..CODES {
        let q = to_quat(code);
        let long = Quat::new(q.s * 1000, q.x * 1000, q.y * 1000, q.z * 1000);
        assert_eq!(from_quat(long), code);
    }
    assert_eq!(from_quat(Quat::new(i32::MAX, 0, 0, 0)), 0);
    assert_eq!(from_quat(Quat::new(i32::MIN, 0, 0, 0)), 2);
    assert_eq!(from_quat(Quat::new(i32::MIN, i32::MIN, 0, 0)), 6);
}

#[test]
fn from_quat_snaps_to_the_nearest_entry() {
    // a little off the identity
    assert_eq!(from_quat(Quat::new(100, 3, -2, 5)), 0);
    // a little off a quarter turn about the first axis
    assert_eq!(from_quat(Quat::new(100, 97, 2, -1)), 4);
    // nearer to the identity than to the quarter turn
    assert_eq!(from_quat(Quat::new(100, 40, 0, 0)), 0);
    // nearer to the quarter turn than to the identity
    assert_eq!(from_quat(Quat::new(100, 42, 0, 0)), 4);
}

#[test]
fn ties_go_to_the_lowest_code() {
    // equally near to the quarter turns about the first and second axis
    // (codes 4 and 8) and to code 9
    assert_eq!(from_quat(Quat::new(1, 1, 1, 1)), 4);
    // the zero quaternion is equally near to everything
    assert_eq!(from_quat(Quat::new(0, 0, 0, 0)), 0);
    // half way between codes 1 and 12
    assert_eq!(from_quat(Quat::new(0, 1, 0, 1)), 9);
    assert_eq!(from_quat(Quat::new(0, 5, 5, 0)), 12);
}

#[test]
fn compose_is_a_nearest_entry_of_the_product_in_floating_point() {
    for a in 0..CODES {
        for b in 0..CODES {
            let product = float_table(a) * float_table(b);
            let best = (0..CODES).map(|c| distance2(product, float_table(c))).fold(f64::INFINITY, f64::min);
            let got = distance2(product, float_table(compose(a, b)));
            assert!(got - best < 1e-9, "compose({}, {}) = {} is not nearest", a, b, compose(a, b));
        }
    }
}

#[test]
fn compose_of_chosen_pairs() {
    // two half turns about the third axis: the rotation with all signs flipped
    assert_eq!(compose(1, 1), 2);
    assert_eq!(compose(1, 3), 0);
    assert_eq!(compose(2, 2), 0);
    // two quarter turns about the first axis make the half turn
    assert_eq!(compose(4, 4), 12);
    // half turn about the first axis, then about the third
    assert_eq!(compose(12, 1), 13);
    assert_eq!(compose(12, 12), 2);
    // a product outside the table snaps to the lowest of the nearest codes
    assert_eq!(compose(4, 8), 4);
}

#[test]
fn rotate_by_quat_agrees_with_compose_on_table_rotations() {
    for a in 0..CODES {
        for b in 0..CODES {
            assert_eq!(rotate_by_quat(a, to_quat(b)), compose(a, b));
        }
    }
}

#[test]
fn rotate_integer_matches_the_rotation_in_floating_point() {
    let points = [(1, 0, 0), (0, 1, 0), (0, 0, 1), (1, 2, 3), (-4, 5, -6), (0, 0, 0), (100, -200, 300)];
    for code in 0..CODES {
        let q = float_table(code);
        for p in points {
            let v = q.rotate_vector(Vector3::new(p.0 as f64, p.1 as f64, p.2 as f64));
            let expected = (v.x.round() as i32, v.y.round() as i32, v.z.round() as i32);
            assert_eq!(rotate_integer(code, p.0, p.1, p.2), expected, "code {} point {:?}", code, p);
        }
    }
}

#[test]
fn rotate_integer_of_chosen_codes() {
    assert_eq!(rotate_integer(0, 1, 2, 3), (1, 2, 3));
    assert_eq!(rotate_integer(1, 1, 2, 3), (-1, -2, 3));
    assert_eq!(rotate_integer(4, 1, 2, 3), (1, -3, 2));
    assert_eq!(rotate_integer(8, 1, 2, 3), (3, 2, -1));
    assert_eq!(rotate_integer(12, 1, 2, 3), (1, -2, -3));
    assert_eq!(rotate_integer(13, 1, 2, 3), (-1, 2, -3));
}

#[test]
fn rotate_integer_keeps_axis_units() {
    let units = [(1, 0, 0), (-1, 0, 0), (0, 1, 0), (0, -1, 0), (0, 0, 1), (0, 0, -1)];
    for code in 0..CODES {
        for u in units {
            let r = rotate_integer(code, u.0, u.1, u.2);
            assert!(units.contains(&r), "code {} sends {:?} to {:?}", code, u, r);
        }
    }
}

#[test]
fn rotate_integer_saturates_at_the_ends_of_the_range() {
    assert_eq!(rotate_integer(1, i32::MIN, i32::MAX, 7), (i32::MAX, -i32::MAX, 7));
    assert_eq!(rotate_integer(0, i32::MIN, i32::MAX, 7), (i32::MIN, i32::MAX, 7));
    let q = float_table(1);
    let v = q.rotate_vector(Vector3::new(i32::MIN as f64, i32::MAX as f64, 7.));
    assert_eq!((v.x.round() as i32, v.y.round() as i32, v.z.round() as i32), (i32::MAX, -i32::MAX, 7));
}
