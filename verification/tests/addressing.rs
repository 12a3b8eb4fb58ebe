use stable_fluids::fixed::Fixed;
use stable_fluids::grid::{clamp, index, Field, MAX_GRID_SIZE};

#[test]
fn index_is_column_plus_row_times_dimension() {
    assert_eq!(index(10, 0, 0), 0);
    assert_eq!(index(10, 3, 4), 43);
    assert_eq!(index(10, 9, 9), 99);
    assert_eq!(index(100, 7, 2), 207);
}

#[test]
fn index_clamps_each_coordinate_on_its_own() {
    assert_eq!(index(10, -3, 4), 40);
    assert_eq!(index(10, 12, 4), 49);
    assert_eq!(index(10, 5, -1), 5);
    assert_eq!(index(10, 5, 10), 95);
    assert_eq!(index(10, -1, -1), 0);
    assert_eq!(index(10, 10, 10), 99);
    assert_eq!(index(10, i64::MIN, i64::MAX), 90);
    assert_eq!(index(10, i64::MAX, i64::MIN), 9);
}

#[test]
fn index_of_a_coordinate_equals_index_of_its_clamped_form() {
    let n: usize = 7;
    for x in -3i64..11 {
        for y in -3i64..11 {
            let cx = clamp(x, 0, n as i64 - 1);
            let cy = clamp(y, 0, n as i64 - 1);
            assert_eq!(index(n, x, y), index(n, cx, cy));
            assert!(index(n, x, y) < n * n);
        }
    }
}

#[test]
fn index_on_the_smallest_and_largest_grid() {
    assert_eq!(index(1, 5, -5), 0);
    assert_eq!(index(MAX_GRID_SIZE, 70000, 70000), MAX_GRID_SIZE * MAX_GRID_SIZE - 1);
    assert_eq!(index(MAX_GRID_SIZE, 1, 1), MAX_GRID_SIZE + 1);
}

#[test]
fn coordinate_clamp_takes_its_bounds_in_either_order() {
    assert_eq!(clamp(5, 0, 9), 5);
    assert_eq!(clamp(-5, 0, 9), 0);
    assert_eq!(clamp(15, 0, 9), 9);
    assert_eq!(clamp(5, 9, 0), 5);
    assert_eq!(clamp(-5, 9, 0), 0);
    assert_eq!(clamp(15, 9, 0), 9);
}

#[test]
fn new_field_is_zero() {
    let f = Field::new(5);
    assert_eq!(f.size(), 5);
    assert_eq!(f.len(), 25);
    for k in 0..25 {
        assert_eq!(f.get_at(k), Fixed::zero());
    }
}

#[test]
fn set_writes_one_cell() {
    let mut f = Field::new(4);
    f.set(2, 1, Fixed::from_int(7));
    for y in 0..4 {
        for x in 0..4 {
            let expected = if x == 2 && y == 1 { Fixed::from_int(7) } else { Fixed::zero() };
            assert_eq!(f.get(x, y), expected);
        }
    }
    assert_eq!(f.get_at(6), Fixed::from_int(7));
}

#[test]
fn get_and_set_clamp_their_coordinates() {
    let mut f = Field::new(4);
    f.set(9, -2, Fixed::from_int(3));
    assert_eq!(f.get(3, 0), Fixed::from_int(3));
    assert_eq!(f.get(100, -100), Fixed::from_int(3));
    assert_eq!(f.get_at(3), Fixed::from_int(3));
}

#[test]
fn set_at_and_clear() {
    let mut f = Field::new(3);
    f.set_at(4, Fixed::from_int(-2));
    assert_eq!(f.get(1, 1), Fixed::from_int(-2));
    f.clear();
    for k in 0..9 {
        assert_eq!(f.get_at(k), Fixed::zero());
    }
    assert_eq!(f.size(), 3);
}
