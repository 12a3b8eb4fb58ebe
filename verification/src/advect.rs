//! The advection step: carries a field along the velocity field.
//!
//! For every cell off the edges it traces the velocity backward over one
//! timestep, clamps the point it reaches into the grid, and takes from the
//! input the bilinear blend of the four cells around that point.

use vstd::prelude::*;
use crate::boundary::{
    enforce, enforce_spec, lemma_enforce_bounded, lemma_enforce_keeps_interior,
    lemma_enforce_reads_interior, lemma_enforce_zeros, FieldKind,
};
use crate::fixed::{
    clamp_spec, difference_spec, lemma_quotient_of_multiple, multiple_spec, product_spec,
    quotient, representable, sum_spec, Fixed, MAX_RAW, ONE_RAW,
};
use crate::grid::{
    bounded_by, col_spec, index_spec, is_interior, lemma_cell_of_index, lemma_index_in_bounds,
    lemma_visiting_end, lemma_visiting_next_row, lemma_visiting_start, lemma_visiting_step,
    row_spec, valid_cells, valid_size, visiting, zeros, Field,
};

verus! {

/// The raw value of one half.
pub const HALF_RAW: i64 = 0x8000_0000;

/// How far a unit of velocity carries over one timestep, in cells:
/// `dt * (n - 2)`.
pub open spec fn reach_spec(n: int, dt: int) -> int {
    multiple_spec(dt, n - 2)
}

/// The coordinate reached from the cell coordinate `c` by going back along
/// the velocity `v`, clamped into `0.5 ..= n - 0.5`.
pub open spec fn traced_back(n: int, c: int, v: int, reach: int) -> int {
    clamp_spec(
        difference_spec(c * ONE_RAW, product_spec(reach, v)),
        HALF_RAW as int,
        n * ONE_RAW - HALF_RAW,
    )
}

/// The bilinear blend of `input` at the point `(x, y)`, given by raw
/// coordinates: the four cells around the point, each weighted by how near
/// the point lies to it.
pub open spec fn sample_spec(n: int, input: Seq<int>, x: int, y: int) -> int {
    let i0 = x / (ONE_RAW as int);
    let j0 = y / (ONE_RAW as int);
    let s1 = x % (ONE_RAW as int);
    let t1 = y % (ONE_RAW as int);
    let s0 = ONE_RAW - s1;
    let t0 = ONE_RAW - t1;
    sum_spec(
        product_spec(
            s0,
            sum_spec(
                product_spec(t0, input[index_spec(n, i0, j0)]),
                product_spec(t1, input[index_spec(n, i0, j0 + 1)]),
            ),
        ),
        product_spec(
            s1,
            sum_spec(
                product_spec(t0, input[index_spec(n, i0 + 1, j0)]),
                product_spec(t1, input[index_spec(n, i0 + 1, j0 + 1)]),
            ),
        ),
    )
}

/// The value that advection gives the cell `(i, j)`.
pub open spec fn advected_value(
    n: int,
    input: Seq<int>,
    vx: Seq<int>,
    vy: Seq<int>,
    dt: int,
    i: int,
    j: int,
) -> int {
    sample_spec(
        n,
        input,
        traced_back(n, i, vx[index_spec(n, i, j)], reach_spec(n, dt)),
        traced_back(n, j, vy[index_spec(n, i, j)], reach_spec(n, dt)),
    )
}

/// `out` with the advected value at every cell off the edges.
pub open spec fn advect_interior(
    n: int,
    out: Seq<int>,
    input: Seq<int>,
    vx: Seq<int>,
    vy: Seq<int>,
    dt: int,
) -> Seq<int> {
    Seq::new(
        out.len(),
        |k: int|
            if is_interior(n, col_spec(n, k), row_spec(n, k)) {
                advected_value(n, input, vx, vy, dt, col_spec(n, k), row_spec(n, k))
            } else {
                out[k]
            },
    )
}

/// The field that advecting `input` along `(vx, vy)` makes of `out`.
pub open spec fn advect_spec(
    kind: FieldKind,
    n: int,
    out: Seq<int>,
    input: Seq<int>,
    vx: Seq<int>,
    vy: Seq<int>,
    dt: int,
) -> Seq<int> {
    enforce_spec(kind, n, advect_interior(n, out, input, vx, vy, dt))
}

fn trace_back(n: usize, c: i64, v: Fixed, reach: Fixed) -> (r: Fixed)
    requires
        valid_size(n as int),
        -0x10000 <= c <= 0x10000,
    ensures
        r@ == traced_back(n as int, c as int, v@, reach@),
{
    let from: Fixed = Fixed::from_int(c).saturating_sub(reach.saturating_mul(v));
    let low: Fixed = Fixed::from_raw(HALF_RAW);
    let high: Fixed = Fixed::from_int(n as i64).saturating_sub(low);
    from.clamp(low, high)
}

fn sample(input: &Field, x: Fixed, y: Fixed) -> (v: Fixed)
    requires
        input.wf(),
    ensures
        v@ == sample_spec(input.dim(), input@, x@, y@),
{
    let i0: i64 = x.floor();
    let j0: i64 = y.floor();
    let s1: Fixed = x.fract();
    let t1: Fixed = y.fract();
    let s0: Fixed = Fixed::one().saturating_sub(s1);
    let t0: Fixed = Fixed::one().saturating_sub(t1);
    let near: Fixed = t0.saturating_mul(input.get(i0, j0)).saturating_add(
        t1.saturating_mul(input.get(i0, j0 + 1)),
    );
    let far: Fixed = t0.saturating_mul(input.get(i0 + 1, j0)).saturating_add(
        t1.saturating_mul(input.get(i0 + 1, j0 + 1)),
    );
    s0.saturating_mul(near).saturating_add(s1.saturating_mul(far))
}

/// Carries `input` along the velocity field `(vx, vy)` over one timestep
/// `dt` and writes the result to `out`.
pub fn advect(
    kind: FieldKind,
    out: &mut Field,
    input: &Field,
    vx: &Field,
    vy: &Field,
    dt: Fixed,
)
    requires
        old(out).wf(),
        input.wf(),
        vx.wf(),
        vy.wf(),
        input.dim() == old(out).dim(),
        vx.dim() == old(out).dim(),
        vy.dim() == old(out).dim(),
    ensures
        final(out).wf(),
        final(out).dim() == old(out).dim(),
        final(out)@ == advect_spec(kind, old(out).dim(), old(out)@, input@, vx@, vy@, dt@),
{
    let n: usize = out.size();
    let last: i64 = n as i64 - 1;
    let reach: Fixed = dt.multiple(n as i64 - 2);
    let ghost m: int = n as int;
    let ghost before: Seq<int> = out@;
    let ghost target: Seq<int> = advect_interior(m, before, input@, vx@, vy@, dt@);
    proof {
        lemma_visiting_start(m, before, target);
    }
    let mut j: i64 = 1;
    while j < last
        invariant
            out.wf(),
            input.wf(),
            vx.wf(),
            vy.wf(),
            out.dim() == m,
            input.dim() == m,
            vx.dim() == m,
            vy.dim() == m,
            n == m,
            last == m - 1,
            reach@ == reach_spec(m, dt@),
            before.len() == m * m,
            target == advect_interior(m, before, input@, vx@, vy@, dt@),
            1 <= j,
            j <= last || j == 1,
            out@ == visiting(m, before, target, j as int, 1),
        decreases last - j,
    {
        let mut i: i64 = 1;
        while i < last
            invariant
                out.wf(),
                input.wf(),
                vx.wf(),
                vy.wf(),
                out.dim() == m,
                input.dim() == m,
                vx.dim() == m,
                vy.dim() == m,
                n == m,
                last == m - 1,
                reach@ == reach_spec(m, dt@),
                before.len() == m * m,
                target == advect_interior(m, before, input@, vx@, vy@, dt@),
                1 <= j < last,
                1 <= i <= last,
                out@ == visiting(m, before, target, j as int, i as int),
            decreases last - i,
        {
            let x: Fixed = trace_back(n, i, vx.get(i, j), reach);
            let y: Fixed = trace_back(n, j, vy.get(i, j), reach);
            let v: Fixed = sample(input, x, y);
            proof {
                lemma_cell_of_index(m, i as int, j as int);
                lemma_visiting_step(m, before, target, j as int, i as int);
            }
            out.set(i, j, v);
            i += 1;
        }
        proof {
            lemma_visiting_next_row(m, before, target, j as int);
        }
        j += 1;
    }
    proof {
        lemma_visiting_end(m, before, target, j as int);
    }
    enforce(kind, out);
}

/// Where the velocity is zero everywhere, advection gives every cell off
/// the edges the value that the input holds there.
pub proof fn lemma_advect_at_rest_keeps_interior(
    kind: FieldKind,
    n: int,
    out: Seq<int>,
    input: Seq<int>,
    dt: int,
    x: int,
    y: int,
)
    requires
        valid_size(n),
        valid_cells(n, input),
        out.len() == n * n,
        is_interior(n, x, y),
    ensures
        advect_spec(kind, n, out, input, zeros(n), zeros(n), dt)[index_spec(n, x, y)] == input[
            index_spec(n, x, y)
        ],
{
    let z = zeros(n);
    let moved = advect_interior(n, out, input, z, z, dt);
    lemma_cell_of_index(n, x, y);
    lemma_enforce_keeps_interior(kind, n, moved, x, y);
    lemma_sample_at_cell(n, input, dt, x, y);
}

/// Where the velocity is zero everywhere, on a grid with an interior,
/// advection makes of any field what the boundary enforcer makes of the
/// input; so it hands back an input that the enforcer leaves unchanged.
pub proof fn lemma_advect_at_rest(
    kind: FieldKind,
    n: int,
    out: Seq<int>,
    input: Seq<int>,
    dt: int,
)
    requires
        valid_size(n),
        n >= 3,
        valid_cells(n, input),
        out.len() == n * n,
    ensures
        advect_spec(kind, n, out, input, zeros(n), zeros(n), dt) == enforce_spec(kind, n, input),
        enforce_spec(kind, n, input) == input ==> advect_spec(
            kind,
            n,
            out,
            input,
            zeros(n),
            zeros(n),
            dt,
        ) == input,
{
    let z = zeros(n);
    let moved = advect_interior(n, out, input, z, z, dt);
    assert forall|x: int, y: int| is_interior(n, x, y) implies moved[#[trigger] index_spec(
        n,
        x,
        y,
    )] == input[index_spec(n, x, y)] by {
        lemma_cell_of_index(n, x, y);
        lemma_sample_at_cell(n, input, dt, x, y);
    }
    lemma_enforce_reads_interior(kind, n, moved, input);
}

proof fn lemma_sample_at_cell(n: int, input: Seq<int>, dt: int, x: int, y: int)
    requires
        valid_size(n),
        valid_cells(n, input),
        is_interior(n, x, y),
    ensures
        advected_value(n, input, zeros(n), zeros(n), dt, x, y) == input[index_spec(n, x, y)],
{
    let reach = reach_spec(n, dt);
    lemma_cell_of_index(n, x, y);
    assert(reach * 0 == 0);
    assert(product_spec(reach, 0) == 0);
    assert(traced_back(n, x, 0, reach) == x * ONE_RAW);
    assert(traced_back(n, y, 0, reach) == y * ONE_RAW);
    let a = input[index_spec(n, x, y)];
    lemma_index_in_bounds(n, x, y + 1);
    lemma_index_in_bounds(n, x + 1, y);
    lemma_index_in_bounds(n, x + 1, y + 1);
    let b = input[index_spec(n, x, y + 1)];
    let c = input[index_spec(n, x + 1, y)];
    let d = input[index_spec(n, x + 1, y + 1)];
    lemma_product_by_one_and_zero(a);
    lemma_product_by_one_and_zero(b);
    lemma_product_by_one_and_zero(c);
    lemma_product_by_one_and_zero(d);
    lemma_product_by_one_and_zero(sum_spec(product_spec(ONE_RAW as int, a), product_spec(0, b)));
    lemma_product_by_one_and_zero(sum_spec(product_spec(ONE_RAW as int, c), product_spec(0, d)));
}

proof fn lemma_product_by_one_and_zero(v: int)
    ensures
        product_spec(0, v) == 0,
        representable(v) ==> product_spec(ONE_RAW as int, v) == v,
{
    assert(0 * v == 0);
    assert(ONE_RAW * v == v * ONE_RAW) by (nonlinear_arith);
    lemma_quotient_of_multiple(v, ONE_RAW as int);
}

/// Advecting the all-zero field along a velocity that is zero everywhere
/// leaves the all-zero field zero.
pub proof fn lemma_advect_zeros(kind: FieldKind, n: int, dt: int)
    requires
        n >= 1,
    ensures
        advect_spec(kind, n, zeros(n), zeros(n), zeros(n), zeros(n), dt) == zeros(n),
{
    let z = zeros(n);
    let moved = advect_interior(n, z, z, z, z, dt);
    assert forall|k: int| 0 <= k < n * n implies (#[trigger] moved[k]) == 0 by {
        let i = col_spec(n, k);
        let j = row_spec(n, k);
        lemma_index_in_bounds(n, i, j);
        let x = traced_back(n, i, z[index_spec(n, i, j)], reach_spec(n, dt));
        let y = traced_back(n, j, z[index_spec(n, i, j)], reach_spec(n, dt));
        let i0 = x / (ONE_RAW as int);
        let j0 = y / (ONE_RAW as int);
        lemma_index_in_bounds(n, i0, j0);
        lemma_index_in_bounds(n, i0, j0 + 1);
        lemma_index_in_bounds(n, i0 + 1, j0);
        lemma_index_in_bounds(n, i0 + 1, j0 + 1);
        let s1 = x % (ONE_RAW as int);
        let t1 = y % (ONE_RAW as int);
        assert((ONE_RAW - t1) * 0 == 0);
        assert(t1 * 0 == 0);
        assert((ONE_RAW - s1) * 0 == 0);
        assert(s1 * 0 == 0);
    }
    assert(moved =~= z);
    lemma_enforce_zeros(kind, n);
}

/// Advection is stable whatever the velocity: on a grid with an interior
/// it makes no cell larger in magnitude than the largest cell of the
/// input.
pub proof fn lemma_advect_is_stable(
    kind: FieldKind,
    n: int,
    out: Seq<int>,
    input: Seq<int>,
    vx: Seq<int>,
    vy: Seq<int>,
    dt: int,
    m: int,
)
    requires
        n >= 3,
        out.len() == n * n,
        input.len() == n * n,
        0 <= m <= MAX_RAW,
        bounded_by(input, m),
    ensures
        bounded_by(advect_spec(kind, n, out, input, vx, vy, dt), m),
{
    let moved = advect_interior(n, out, input, vx, vy, dt);
    assert forall|x: int, y: int| is_interior(n, x, y) implies -m <= moved[#[trigger] index_spec(
        n,
        x,
        y,
    )] <= m by {
        lemma_cell_of_index(n, x, y);
        let px = traced_back(n, x, vx[index_spec(n, x, y)], reach_spec(n, dt));
        let py = traced_back(n, y, vy[index_spec(n, x, y)], reach_spec(n, dt));
        lemma_sample_bounded(n, input, px, py, m);
    }
    lemma_enforce_bounded(kind, n, moved, m);
}

proof fn lemma_sample_bounded(n: int, input: Seq<int>, x: int, y: int, m: int)
    requires
        n >= 1,
        input.len() == n * n,
        0 <= m <= MAX_RAW,
        bounded_by(input, m),
    ensures
        -m <= sample_spec(n, input, x, y) <= m,
{
    let i0 = x / (ONE_RAW as int);
    let j0 = y / (ONE_RAW as int);
    let s1 = x % (ONE_RAW as int);
    let t1 = y % (ONE_RAW as int);
    lemma_index_in_bounds(n, i0, j0);
    lemma_index_in_bounds(n, i0, j0 + 1);
    lemma_index_in_bounds(n, i0 + 1, j0);
    lemma_index_in_bounds(n, i0 + 1, j0 + 1);
    let a = input[index_spec(n, i0, j0)];
    let b = input[index_spec(n, i0, j0 + 1)];
    let c = input[index_spec(n, i0 + 1, j0)];
    let d = input[index_spec(n, i0 + 1, j0 + 1)];
    lemma_blend_bounded(t1, a, b, m);
    lemma_blend_bounded(t1, c, d, m);
    let near = sum_spec(product_spec(ONE_RAW - t1, a), product_spec(t1, b));
    let far = sum_spec(product_spec(ONE_RAW - t1, c), product_spec(t1, d));
    lemma_blend_bounded(s1, near, far, m);
}

/// A blend of two values with weights that add up to one lies within the
/// bound of both.
proof fn lemma_blend_bounded(w: int, a: int, b: int, m: int)
    requires
        0 <= w <= ONE_RAW,
        0 <= m <= MAX_RAW,
        -m <= a <= m,
        -m <= b <= m,
    ensures
        -m <= sum_spec(product_spec(ONE_RAW - w, a), product_spec(w, b)) <= m,
{
    let one = ONE_RAW as int;
    let v = one - w;
    lemma_weighted(v, a, m);
    lemma_weighted(w, b, m);
    assert(v * m + w * m == one * m) by (nonlinear_arith)
        requires
            v + w == one,
    ;
}

/// A value weighted by at most one: scaled back up, the product lies
/// within the weight times the bound of the value.
proof fn lemma_weighted(w: int, a: int, m: int)
    requires
        0 <= w <= ONE_RAW,
        0 <= m <= MAX_RAW,
        -m <= a <= m,
    ensures
        -(w * m) <= quotient(w * a, ONE_RAW as int) * ONE_RAW <= w * m,
        -m <= quotient(w * a, ONE_RAW as int) <= m,
        product_spec(w, a) == quotient(w * a, ONE_RAW as int),
{
    let one = ONE_RAW as int;
    let p = w * a;
    assert(-(w * m) <= p <= w * m) by (nonlinear_arith)
        requires
            0 <= w,
            -m <= a <= m,
            p == w * a,
    ;
    assert(w * m <= one * m) by (nonlinear_arith)
        requires
            0 <= w <= one,
            0 <= m,
    ;
    let q = quotient(p, one);
    if p >= 0 {
        assert(q == p / one);
        assert(0 <= q * one <= p);
    } else {
        assert(q == -((-p) / one));
        assert(p <= q * one <= 0);
    }
}

} // verus!
