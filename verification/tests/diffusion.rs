use stable_fluids::boundary::FieldKind;
use stable_fluids::diffuse::diffuse;
use stable_fluids::fixed::{Fixed, ONE_RAW};
use stable_fluids::grid::Field;
use stable_fluids::solver::relax;

fn raws(f: &Field) -> Vec<i64> {
    (0..f.len()).map(|k| f.get_at(k).raw()).collect()
}

fn scrambled(n: usize, seed: &mut i64, scale: i64) -> Field {
    let mut f = Field::new(n);
    for k in 0..n * n {
        *seed = (*seed * 1103515245 + 12345) % 2147483648;
        f.set_at(k, Fixed::from_raw((*seed - 1073741824) * scale));
    }
    f
}

#[test]
fn diffuse_is_relaxation_with_the_diffusion_coefficients() {
    let n: usize = 10;
    let rate = Fixed::from_ratio(1, 10000);
    let dt = Fixed::from_ratio(1, 10);
    // a = dt * rate * (n - 2)^2 = 0.00064, c = 1 + 6 a
    let a = Fixed::from_raw(2748774);
    let c = Fixed::from_raw(ONE_RAW + 6 * 2748774);
    assert_eq!(dt.multiple(64).saturating_mul(rate), a);
    let mut seed: i64 = 3;
    let input = scrambled(n, &mut seed, 8);
    let mut by_diffuse = scrambled(n, &mut seed, 8);
    let mut by_relax = Field::new(n);
    for k in 0..n * n {
        by_relax.set_at(k, by_diffuse.get_at(k));
    }
    diffuse(FieldKind::VelocityX, &mut by_diffuse, &input, rate, dt, 4);
    relax(FieldKind::VelocityX, &mut by_relax, &input, a, c, 4);
    assert_eq!(raws(&by_diffuse), raws(&by_relax));
}

#[test]
fn diffuse_a_single_cell() {
    let mut input = Field::new(3);
    input.set(1, 1, Fixed::from_int(6));
    let mut out = Field::new(3);
    // a = 1 * 0.5 * 1, c = 4: 6 / 4
    diffuse(FieldKind::Scalar, &mut out, &input, Fixed::from_ratio(1, 2), Fixed::one(), 1);
    assert_eq!(out.get(1, 1), Fixed::from_ratio(3, 2));
    assert_eq!(raws(&out), vec![
            4252017621, 6442450944, 4252017621, 6442450944,
            6442450944, 6442450944, 4252017621, 6442450944,
            4252017621,
        ]);
}

#[test]
fn diffuse_spreads_a_point() {
    let mut input = Field::new(5);
    input.set(2, 2, Fixed::from_int(100));
    let mut out = Field::new(5);
    diffuse(
        FieldKind::Scalar,
        &mut out,
        &input,
        Fixed::from_ratio(1, 100),
        Fixed::from_ratio(1, 10),
        4,
    );
    assert_eq!(raws(&out), vec![
            40246576, 60979662, 3511582273, 61011491,
            40267584, 60979662, 60979662, 3511582273,
            61011491, 61011491, 3511582273, 3511582273,
            407612094405, 3511585526, 3511585526, 61011491,
            61011491, 3511585526, 61012090, 61012090,
            40267584, 61011491, 3511585526, 61012090,
            40267979,
        ]);
}

#[test]
fn diffuse_starts_from_what_the_output_holds() {
    let mut input = Field::new(5);
    input.set(2, 2, Fixed::from_int(100));
    let mut out = Field::new(5);
    out.set(2, 2, Fixed::from_int(50));
    diffuse(
        FieldKind::Scalar,
        &mut out,
        &input,
        Fixed::from_ratio(1, 100),
        Fixed::from_ratio(1, 10),
        1,
    );
    assert_eq!(raws(&out), vec![
            0, 0, 1833714615, 15657903,
            10334215, 0, 0, 1833714615,
            15657903, 15657903, 1833714615, 1833714615,
            407523470026, 3479935484, 3479935484, 15657903,
            15657903, 3479935484, 59429635, 59429635,
            10334215, 15657903, 3479935484, 59429635,
            39223559,
        ]);
}

#[test]
fn diffuse_with_zero_rate_copies_the_interior() {
    let mut seed: i64 = 11;
    let input = scrambled(6, &mut seed, 8);
    let mut out = Field::new(6);
    diffuse(FieldKind::Scalar, &mut out, &input, Fixed::zero(), Fixed::from_ratio(1, 10), 2);
    for y in 1..5 {
        for x in 1..5 {
            assert_eq!(out.get(x, y), input.get(x, y));
        }
    }
}

#[test]
fn diffusion_never_exceeds_the_largest_cell_it_reads() {
    for (rate, sweeps) in [(1i64, 1usize), (1000, 4), (1_000_000, 20)] {
        let mut seed: i64 = 41;
        let input = scrambled(9, &mut seed, 8);
        let mut out = scrambled(9, &mut seed, 8);
        let largest = raws(&input).iter().chain(raws(&out).iter()).map(|v| v.abs()).max().unwrap();
        diffuse(
            FieldKind::VelocityY,
            &mut out,
            &input,
            Fixed::from_ratio(rate, 1000),
            Fixed::from_ratio(1, 10),
            sweeps,
        );
        assert!(raws(&out).iter().all(|v| v.abs() <= largest));
    }
}
