use stable_fluids::boundary::{enforce, FieldKind};
use stable_fluids::fixed::Fixed;
use stable_fluids::grid::Field;
use stable_fluids::project::project;

fn raws(f: &Field) -> Vec<i64> {
    (0..f.len()).map(|k| f.get_at(k).raw()).collect()
}

fn scrambled(n: usize, seed: &mut i64, scale: i64) -> Field {
    let mut f = Field::new(n);
    for k in 0..n * n {
        *seed = (*seed * 1103515245 + 12345) % 2147483648;
        f.set_at(k, Fixed::from_raw((*seed - 1073741824) * scale));
    }
    f
}

fn total_divergence(div: &Field) -> i128 {
    let n = div.size() as i64;
    let mut total: i128 = 0;
    for j in 1..n - 1 {
        for i in 1..n - 1 {
            total += (div.get(i, j).raw() as i128).abs();
        }
    }
    total
}

#[test]
fn divergence_of_a_single_cell() {
    let mut vx = Field::new(3);
    let mut vy = Field::new(3);
    vx.set(2, 1, Fixed::from_int(5));
    vx.set(0, 1, Fixed::from_int(1));
    vy.set(1, 2, Fixed::from_int(3));
    vy.set(1, 0, Fixed::from_int(-2));
    let mut p = Field::new(3);
    let mut div = Field::new(3);
    project(&mut vx, &mut vy, &mut p, &mut div, 0);
    // -0.5 * ((5 - 1) + (3 - -2)) / 3 = -1.5
    assert_eq!(div.get(1, 1), Fixed::from_ratio(-3, 2));
    assert_eq!(div.get(0, 1), Fixed::from_ratio(-3, 2));
    assert_eq!(div.get(1, 0), Fixed::from_ratio(-3, 2));
    assert!(raws(&p).iter().all(|&v| v == 0));
}

#[test]
fn gradient_of_the_pressure_is_subtracted() {
    // One sweep from zero pressure gives p = div / 6 at the first cell.
    let mut vx = Field::new(3);
    let mut vy = Field::new(3);
    vx.set(1, 1, Fixed::from_int(7));
    vx.set(2, 1, Fixed::from_int(12));
    let mut p = Field::new(3);
    let mut div = Field::new(3);
    project(&mut vx, &mut vy, &mut p, &mut div, 1);
    // div = -0.5 * 12 / 3 = -2, p = -2 / 6 everywhere after the edges are
    // enforced, so the gradient is zero and the interior keeps its value.
    assert_eq!(div.get(1, 1), Fixed::from_int(-2));
    assert_eq!(p.get(1, 1), Fixed::from_int(-2).saturating_div(Fixed::from_int(6)));
    assert_eq!(p.get(2, 1), p.get(1, 1));
    assert_eq!(vx.get(1, 1), Fixed::from_int(7));
    assert_eq!(vx.get(0, 1), Fixed::from_int(-7));
    assert_eq!(vx.get(2, 1), Fixed::from_int(-7));
}

#[test]
fn project_a_scrambled_field() {
    let mut seed: i64 = 7;
    let mut vx = scrambled(5, &mut seed, 8);
    let mut vy = scrambled(5, &mut seed, 8);
    let mut p = Field::new(5);
    for k in 0..25 {
        p.set_at(k, Fixed::from_raw(123));
    }
    let mut div = Field::new(5);
    project(&mut vx, &mut vy, &mut p, &mut div, 4);
    assert_eq!(raws(&div), vec![
            -606982689, -919670742, 2039017091, 1957057603,
            1291658017, -919670742, -919670742, 2039017091,
            1957057603, 1957057603, -1001722595, -1001722595,
            1335842115, 241498729, 241498729, -837956438,
            -837956438, -452839574, 1088878582, 1088878582,
            -553051248, -837956438, -452839574, 1088878582,
            718659863,
        ]);
    assert_eq!(raws(&p), vec![
            -106276722, -161025337, 557779796, 678860150,
            448047698, -161025337, -161025337, 557779796,
            678860150, 678860150, -225358601, -225358601,
            319988511, 306498335, 306498335, -271288313,
            -271288313, -19863536, 334574400, 334574400,
            -179050286, -271288313, -19863536, 334574400,
            220819103,
        ]);
    assert_eq!(raws(&vx), vec![
            0, 6408438674, 5977944389, -4706149109,
            0, -6408438674, 6408438674, 5977944389,
            -4706149109, 4706149109, -3344259444, 3344259444,
            5615510108, 5009426568, -5009426568, 1781234932,
            -1781234932, 2297330268, 564385816, -564385816,
            0, -1781234932, 2297330268, 564385816,
            0,
        ]);
    assert_eq!(raws(&vy), vec![
            0, 1660514880, -6065156386, 5304583233,
            0, -1660514880, -1660514880, 6065156386,
            -5304583233, -5304583233, 2567776992, 2567776992,
            -5346397710, -2473467529, -2473467529, -1345461248,
            -1345461248, -7306186765, 6421408648, 6421408648,
            0, 1345461248, 7306186765, -6421408648,
            0,
        ]);
}

#[test]
fn projection_reduces_divergence() {
    for (n, sweeps) in [(10usize, 4usize), (16, 4), (16, 20), (32, 20)] {
        let mut seed: i64 = 7;
        let mut vx = scrambled(n, &mut seed, 8);
        let mut vy = scrambled(n, &mut seed, 8);
        enforce(FieldKind::VelocityX, &mut vx);
        enforce(FieldKind::VelocityY, &mut vy);
        let mut p = Field::new(n);
        let mut div = Field::new(n);
        project(&mut vx, &mut vy, &mut p, &mut div, sweeps);
        let before = total_divergence(&div);
        project(&mut vx, &mut vy, &mut p, &mut div, 0);
        let after = total_divergence(&div);
        assert!(before > 0);
        assert!(after < before);
        assert!(after * 10 < before * 9);
    }
}

#[test]
fn projection_leaves_the_velocity_with_its_edges_reflected() {
    let n: i64 = 8;
    let mut seed: i64 = 31;
    let mut vx = scrambled(8, &mut seed, 8);
    let mut vy = scrambled(8, &mut seed, 8);
    let mut p = Field::new(8);
    let mut div = Field::new(8);
    project(&mut vx, &mut vy, &mut p, &mut div, 4);
    for j in 1..n - 1 {
        assert_eq!(vx.get(0, j), vx.get(1, j).neg());
        assert_eq!(vx.get(n - 1, j), vx.get(n - 2, j).neg());
        assert_eq!(vy.get(j, 0), vy.get(j, 1).neg());
        assert_eq!(vy.get(j, n - 1), vy.get(j, n - 2).neg());
        assert_eq!(p.get(0, j), p.get(1, j));
        assert_eq!(div.get(j, 0), div.get(j, 1));
    }
}

#[test]
fn projecting_a_field_at_rest_changes_nothing() {
    let mut vx = Field::new(7);
    let mut vy = Field::new(7);
    let mut p = Field::new(7);
    let mut div = Field::new(7);
    project(&mut vx, &mut vy, &mut p, &mut div, 4);
    for f in [&vx, &vy, &p, &div] {
        assert!(raws(f).iter().all(|&v| v == 0));
    }
}
