use stable_fluids::boundary::{enforce, FieldKind, CORNER_WEIGHT_RAW};
use stable_fluids::fixed::{Fixed, ONE_RAW};
use stable_fluids::grid::Field;

fn sample_field(n: usize) -> Field {
    let mut f = Field::new(n);
    let mut seed: i64 = 12345;
    for k in 0..n * n {
        seed = (seed * 1103515245 + 12345) % 2147483648;
        f.set_at(k, Fixed::from_raw(seed * 1000 - 1073741824000));
    }
    f
}

fn raws(f: &Field) -> Vec<i64> {
    (0..f.len()).map(|k| f.get_at(k).raw()).collect()
}

fn four_by_four() -> Field {
    let mut f = Field::new(4);
    f.set(1, 1, Fixed::from_int(1));
    f.set(2, 1, Fixed::from_int(2));
    f.set(1, 2, Fixed::from_int(3));
    f.set(2, 2, Fixed::from_int(4));
    f
}

#[test]
fn corner_weight_is_a_third_rounded_to_two_places() {
    assert_eq!(CORNER_WEIGHT_RAW, (0.33f64 * ONE_RAW as f64) as i64);
}

#[test]
fn scalar_field_copies_its_edges() {
    let mut f = four_by_four();
    enforce(FieldKind::Scalar, &mut f);
    assert_eq!(
        raws(&f),
        vec![
            2834678414, 4294967296, 8589934592, 5669356828,
            4294967296, 4294967296, 8589934592, 8589934592,
            12884901888, 12884901888, 17179869184, 17179869184,
            8504035242, 12884901888, 17179869184, 11338713656,
        ]
    );
}

#[test]
fn horizontal_velocity_negates_at_the_sides() {
    let mut f = four_by_four();
    enforce(FieldKind::VelocityX, &mut f);
    assert_eq!(
        raws(&f),
        vec![
            0, 4294967296, 8589934592, 0,
            -4294967296, 4294967296, 8589934592, -8589934592,
            -12884901888, 12884901888, 17179869184, -17179869184,
            0, 12884901888, 17179869184, 0,
        ]
    );
}

#[test]
fn vertical_velocity_negates_at_the_ends() {
    let mut f = four_by_four();
    enforce(FieldKind::VelocityY, &mut f);
    assert_eq!(
        raws(&f),
        vec![
            0, -4294967296, -8589934592, 0,
            4294967296, 4294967296, 8589934592, 8589934592,
            12884901888, 12884901888, 17179869184, 17179869184,
            0, -12884901888, -17179869184, 0,
        ]
    );
}

#[test]
fn boundary_mirroring_for_horizontal_velocity() {
    let n: i64 = 9;
    let mut f = sample_field(9);
    enforce(FieldKind::VelocityX, &mut f);
    for j in 1..n - 1 {
        assert_eq!(f.get(0, j), f.get(1, j).neg());
        assert_eq!(f.get(n - 1, j), f.get(n - 2, j).neg());
        assert_eq!(f.get(j, 0), f.get(j, 1));
        assert_eq!(f.get(j, n - 1), f.get(j, n - 2));
    }
}

#[test]
fn boundary_mirroring_for_vertical_velocity() {
    let n: i64 = 9;
    let mut f = sample_field(9);
    enforce(FieldKind::VelocityY, &mut f);
    for j in 1..n - 1 {
        assert_eq!(f.get(0, j), f.get(1, j));
        assert_eq!(f.get(n - 1, j), f.get(n - 2, j));
        assert_eq!(f.get(j, 0), f.get(j, 1).neg());
        assert_eq!(f.get(j, n - 1), f.get(j, n - 2).neg());
    }
}

#[test]
fn boundary_mirroring_for_a_scalar() {
    let n: i64 = 9;
    let mut f = sample_field(9);
    enforce(FieldKind::Scalar, &mut f);
    for j in 1..n - 1 {
        assert_eq!(f.get(0, j), f.get(1, j));
        assert_eq!(f.get(n - 1, j), f.get(n - 2, j));
        assert_eq!(f.get(j, 0), f.get(j, 1));
        assert_eq!(f.get(j, n - 1), f.get(j, n - 2));
    }
}

#[test]
fn corners_take_the_weighted_sum_of_their_neighbours() {
    let n: i64 = 9;
    let weight = Fixed::from_raw(CORNER_WEIGHT_RAW);
    for kind in [FieldKind::Scalar, FieldKind::VelocityX, FieldKind::VelocityY] {
        let mut f = sample_field(9);
        enforce(kind, &mut f);
        let corner = |a: Fixed, b: Fixed| weight.saturating_mul(a.saturating_add(b));
        assert_eq!(f.get(0, 0), corner(f.get(1, 0), f.get(0, 1)));
        assert_eq!(f.get(0, n - 1), corner(f.get(1, n - 1), f.get(0, n - 2)));
        assert_eq!(f.get(n - 1, 0), corner(f.get(n - 2, 0), f.get(n - 1, 1)));
        assert_eq!(f.get(n - 1, n - 1), corner(f.get(n - 2, n - 1), f.get(n - 1, n - 2)));
    }
}

#[test]
fn interior_is_left_as_it_was() {
    let before = sample_field(6);
    let mut f = sample_field(6);
    enforce(FieldKind::VelocityX, &mut f);
    for y in 1..5 {
        for x in 1..5 {
            assert_eq!(f.get(x, y), before.get(x, y));
        }
    }
}

#[test]
fn enforcing_twice_is_enforcing_once() {
    let mut once = sample_field(7);
    enforce(FieldKind::VelocityY, &mut once);
    let mut twice = sample_field(7);
    enforce(FieldKind::VelocityY, &mut twice);
    enforce(FieldKind::VelocityY, &mut twice);
    assert_eq!(raws(&once), raws(&twice));
}

#[test]
fn zero_field_stays_zero() {
    for n in [1usize, 2, 3, 8] {
        let mut f = Field::new(n);
        enforce(FieldKind::VelocityX, &mut f);
        assert!(raws(&f).iter().all(|&v| v == 0));
    }
}

#[test]
fn grid_of_one_cell_mixes_the_cell_with_itself() {
    let mut f = Field::new(1);
    f.set(0, 0, Fixed::from_int(1));
    enforce(FieldKind::Scalar, &mut f);
    let w = Fixed::from_raw(CORNER_WEIGHT_RAW);
    let mut v = Fixed::from_int(1);
    for _ in 0..4 {
        v = w.saturating_mul(v.saturating_add(v));
    }
    assert_eq!(f.get(0, 0), v);
}

#[test]
fn grid_of_four_cells_sets_its_corners_in_turn() {
    let mut f = Field::new(2);
    f.set(0, 0, Fixed::from_int(1));
    f.set(1, 0, Fixed::from_int(2));
    f.set(0, 1, Fixed::from_int(3));
    f.set(1, 1, Fixed::from_int(4));
    enforce(FieldKind::Scalar, &mut f);
    let w = Fixed::from_raw(CORNER_WEIGHT_RAW);
    let corner = |a: Fixed, b: Fixed| w.saturating_mul(a.saturating_add(b));
    let c00 = corner(Fixed::from_int(2), Fixed::from_int(3));
    let c01 = corner(Fixed::from_int(4), c00);
    let c10 = corner(c00, Fixed::from_int(4));
    let c11 = corner(c01, c10);
    assert_eq!(f.get(0, 0), c00);
    assert_eq!(f.get(0, 1), c01);
    assert_eq!(f.get(1, 0), c10);
    assert_eq!(f.get(1, 1), c11);
}
