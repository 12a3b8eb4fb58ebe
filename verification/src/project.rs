//! The projection step: removes divergence from a velocity field.
//!
//! It measures the divergence at every cell off the edges, solves the
//! pressure equation against it with the relaxation solver, and subtracts
//! the gradient of the pressure from the velocity.

use vstd::prelude::*;
use crate::boundary::{enforce, enforce_spec, lemma_enforce_len, lemma_enforce_zeros, FieldKind};
use crate::fixed::{
    difference_spec, fraction_spec, lemma_quotient_bounds, multiple_spec, sum_spec, Fixed, MAX_RAW,
    ONE_RAW,
};
use crate::grid::{
    bounded_by, col_spec, index_spec, is_interior, lemma_cell_of_index, lemma_index_in_bounds,
    lemma_index_of_cell, lemma_visiting_end, lemma_visiting_next_row, lemma_visiting_start,
    lemma_visiting_step, row_spec, visiting, zeros, Field,
};
use crate::solver::{lemma_relax_is_stable, lemma_relax_zeros, relax, relax_spec};

verus! {

/// What flows out of the cell `(i, j)` over what flows in, across its four
/// sides.
pub open spec fn flow_difference(n: int, vx: Seq<int>, vy: Seq<int>, i: int, j: int) -> int {
    difference_spec(
        sum_spec(
            difference_spec(vx[index_spec(n, i + 1, j)], vx[index_spec(n, i - 1, j)]),
            vy[index_spec(n, i, j + 1)],
        ),
        vy[index_spec(n, i, j - 1)],
    )
}

/// The divergence at the cell `(i, j)`: minus one half of the flow
/// difference, divided by the grid dimension.
pub open spec fn divergence_value(n: int, vx: Seq<int>, vy: Seq<int>, i: int, j: int) -> int {
    -fraction_spec(flow_difference(n, vx, vy, i, j), 2 * n)
}

/// `div` with the divergence of `(vx, vy)` at every cell off the edges.
pub open spec fn divergence_interior(n: int, vx: Seq<int>, vy: Seq<int>, div: Seq<int>) -> Seq<
    int,
> {
    Seq::new(
        div.len(),
        |k: int|
            if is_interior(n, col_spec(n, k), row_spec(n, k)) {
                divergence_value(n, vx, vy, col_spec(n, k), row_spec(n, k))
            } else {
                div[k]
            },
    )
}

/// The divergence field of `(vx, vy)`, written over `div`.
pub open spec fn divergence_spec(n: int, vx: Seq<int>, vy: Seq<int>, div: Seq<int>) -> Seq<int> {
    enforce_spec(FieldKind::Scalar, n, divergence_interior(n, vx, vy, div))
}

/// The pressure of `(vx, vy)`: the pressure equation relaxed from zero
/// against the divergence, with `a = 1` and `c = 6`.
pub open spec fn pressure_spec(
    n: int,
    vx: Seq<int>,
    vy: Seq<int>,
    div: Seq<int>,
    iterations: nat,
) -> Seq<int> {
    relax_spec(
        FieldKind::Scalar,
        n,
        zeros(n),
        divergence_spec(n, vx, vy, div),
        ONE_RAW as int,
        6 * ONE_RAW,
        iterations,
    )
}

/// One half of the pressure difference across the cell `(i, j)` from left
/// to right, times the grid dimension.
pub open spec fn gradient_x(n: int, p: Seq<int>, i: int, j: int) -> int {
    multiple_spec(
        fraction_spec(difference_spec(p[index_spec(n, i + 1, j)], p[index_spec(n, i - 1, j)]), 2),
        n,
    )
}

/// One half of the pressure difference across the cell `(i, j)` from top
/// to bottom, times the grid dimension.
pub open spec fn gradient_y(n: int, p: Seq<int>, i: int, j: int) -> int {
    multiple_spec(
        fraction_spec(difference_spec(p[index_spec(n, i, j + 1)], p[index_spec(n, i, j - 1)]), 2),
        n,
    )
}

/// `vx` less the horizontal pressure gradient at every cell off the edges.
pub open spec fn without_gradient_x(n: int, vx: Seq<int>, p: Seq<int>) -> Seq<int> {
    Seq::new(
        vx.len(),
        |k: int|
            if is_interior(n, col_spec(n, k), row_spec(n, k)) {
                difference_spec(vx[k], gradient_x(n, p, col_spec(n, k), row_spec(n, k)))
            } else {
                vx[k]
            },
    )
}

/// `vy` less the vertical pressure gradient at every cell off the edges.
pub open spec fn without_gradient_y(n: int, vy: Seq<int>, p: Seq<int>) -> Seq<int> {
    Seq::new(
        vy.len(),
        |k: int|
            if is_interior(n, col_spec(n, k), row_spec(n, k)) {
                difference_spec(vy[k], gradient_y(n, p, col_spec(n, k), row_spec(n, k)))
            } else {
                vy[k]
            },
    )
}

/// The horizontal velocity after projection against the pressure `p`.
pub open spec fn projected_x(n: int, vx: Seq<int>, p: Seq<int>) -> Seq<int> {
    enforce_spec(FieldKind::VelocityX, n, without_gradient_x(n, vx, p))
}

/// The vertical velocity after projection against the pressure `p`.
pub open spec fn projected_y(n: int, vy: Seq<int>, p: Seq<int>) -> Seq<int> {
    enforce_spec(FieldKind::VelocityY, n, without_gradient_y(n, vy, p))
}

fn divergence_at(vx: &Field, vy: &Field, i: i64, j: i64) -> (d: Fixed)
    requires
        vx.wf(),
        vy.wf(),
        vy.dim() == vx.dim(),
        -0x10000 <= i <= 0x10000,
        -0x10000 <= j <= 0x10000,
    ensures
        d@ == divergence_value(vx.dim(), vx@, vy@, i as int, j as int),
{
    let flow: Fixed = vx.get(i + 1, j).saturating_sub(vx.get(i - 1, j)).saturating_add(
        vy.get(i, j + 1),
    ).saturating_sub(vy.get(i, j - 1));
    flow.fraction(2 * (vx.size() as i64)).neg()
}

fn measure_divergence(vx: &Field, vy: &Field, div: &mut Field)
    requires
        vx.wf(),
        vy.wf(),
        old(div).wf(),
        vy.dim() == vx.dim(),
        old(div).dim() == vx.dim(),
    ensures
        final(div).wf(),
        final(div).dim() == vx.dim(),
        final(div)@ == divergence_interior(vx.dim(), vx@, vy@, old(div)@),
{
    let n: usize = vx.size();
    let last: i64 = n as i64 - 1;
    let ghost m: int = n as int;
    let ghost before: Seq<int> = div@;
    let ghost target: Seq<int> = divergence_interior(m, vx@, vy@, before);
    proof {
        lemma_visiting_start(m, before, target);
    }
    let mut j: i64 = 1;
    while j < last
        invariant
            vx.wf(),
            vy.wf(),
            div.wf(),
            vx.dim() == m,
            vy.dim() == m,
            div.dim() == m,
            last == m - 1,
            before.len() == m * m,
            target == divergence_interior(m, vx@, vy@, before),
            1 <= j,
            j <= last || j == 1,
            div@ == visiting(m, before, target, j as int, 1),
        decreases last - j,
    {
        let mut i: i64 = 1;
        while i < last
            invariant
                vx.wf(),
                vy.wf(),
                div.wf(),
                vx.dim() == m,
                vy.dim() == m,
                div.dim() == m,
                last == m - 1,
                before.len() == m * m,
                target == divergence_interior(m, vx@, vy@, before),
                1 <= j < last,
                1 <= i <= last,
                div@ == visiting(m, before, target, j as int, i as int),
            decreases last - i,
        {
            let d: Fixed = divergence_at(vx, vy, i, j);
            proof {
                lemma_cell_of_index(m, i as int, j as int);
                lemma_visiting_step(m, before, target, j as int, i as int);
            }
            div.set(i, j, d);
            i += 1;
        }
        proof {
            lemma_visiting_next_row(m, before, target, j as int);
        }
        j += 1;
    }
    proof {
        lemma_visiting_end(m, before, target, j as int);
    }
}

fn subtract_gradient(vx: &mut Field, vy: &mut Field, p: &Field)
    requires
        old(vx).wf(),
        old(vy).wf(),
        p.wf(),
        old(vx).dim() == p.dim(),
        old(vy).dim() == p.dim(),
    ensures
        final(vx).wf(),
        final(vy).wf(),
        final(vx).dim() == p.dim(),
        final(vy).dim() == p.dim(),
        final(vx)@ == without_gradient_x(p.dim(), old(vx)@, p@),
        final(vy)@ == without_gradient_y(p.dim(), old(vy)@, p@),
{
    let n: usize = p.size();
    let last: i64 = n as i64 - 1;
    let ghost m: int = n as int;
    let ghost vx_before: Seq<int> = vx@;
    let ghost vy_before: Seq<int> = vy@;
    let ghost vx_target: Seq<int> = without_gradient_x(m, vx_before, p@);
    let ghost vy_target: Seq<int> = without_gradient_y(m, vy_before, p@);
    proof {
        lemma_visiting_start(m, vx_before, vx_target);
        lemma_visiting_start(m, vy_before, vy_target);
    }
    let mut j: i64 = 1;
    while j < last
        invariant
            vx.wf(),
            vy.wf(),
            p.wf(),
            vx.dim() == m,
            vy.dim() == m,
            p.dim() == m,
            last == m - 1,
            n == m,
            vx_before.len() == m * m,
            vy_before.len() == m * m,
            vx_target == without_gradient_x(m, vx_before, p@),
            vy_target == without_gradient_y(m, vy_before, p@),
            1 <= j,
            j <= last || j == 1,
            vx@ == visiting(m, vx_before, vx_target, j as int, 1),
            vy@ == visiting(m, vy_before, vy_target, j as int, 1),
        decreases last - j,
    {
        let mut i: i64 = 1;
        while i < last
            invariant
                vx.wf(),
                vy.wf(),
                p.wf(),
                vx.dim() == m,
                vy.dim() == m,
                p.dim() == m,
                last == m - 1,
                n == m,
                vx_before.len() == m * m,
                vy_before.len() == m * m,
                vx_target == without_gradient_x(m, vx_before, p@),
                vy_target == without_gradient_y(m, vy_before, p@),
                1 <= j < last,
                1 <= i <= last,
                vx@ == visiting(m, vx_before, vx_target, j as int, i as int),
                vy@ == visiting(m, vy_before, vy_target, j as int, i as int),
            decreases last - i,
        {
            let across: Fixed = p.get(i + 1, j).saturating_sub(p.get(i - 1, j)).fraction(
                2,
            ).multiple(n as i64);
            let along: Fixed = p.get(i, j + 1).saturating_sub(p.get(i, j - 1)).fraction(
                2,
            ).multiple(n as i64);
            proof {
                lemma_cell_of_index(m, i as int, j as int);
                lemma_visiting_step(m, vx_before, vx_target, j as int, i as int);
                lemma_visiting_step(m, vy_before, vy_target, j as int, i as int);
            }
            let x_now: Fixed = vx.get(i, j);
            let y_now: Fixed = vy.get(i, j);
            vx.set(i, j, x_now.saturating_sub(across));
            vy.set(i, j, y_now.saturating_sub(along));
            i += 1;
        }
        proof {
            lemma_visiting_next_row(m, vx_before, vx_target, j as int);
            lemma_visiting_next_row(m, vy_before, vy_target, j as int);
        }
        j += 1;
    }
    proof {
        lemma_visiting_end(m, vx_before, vx_target, j as int);
        lemma_visiting_end(m, vy_before, vy_target, j as int);
    }
}

/// Projects the velocity field `(vx, vy)`. The divergence is left in `div`
/// and the pressure in `p`, which is zeroed first.
pub fn project(
    vx: &mut Field,
    vy: &mut Field,
    p: &mut Field,
    div: &mut Field,
    iterations: usize,
)
    requires
        old(vx).wf(),
        old(vy).wf(),
        old(p).wf(),
        old(div).wf(),
        old(vy).dim() == old(vx).dim(),
        old(p).dim() == old(vx).dim(),
        old(div).dim() == old(vx).dim(),
    ensures
        final(vx).wf(),
        final(vy).wf(),
        final(p).wf(),
        final(div).wf(),
        final(vx).dim() == old(vx).dim(),
        final(vy).dim() == old(vx).dim(),
        final(p).dim() == old(vx).dim(),
        final(div).dim() == old(vx).dim(),
        final(div)@ == divergence_spec(old(vx).dim(), old(vx)@, old(vy)@, old(div)@),
        final(p)@ == pressure_spec(
            old(vx).dim(),
            old(vx)@,
            old(vy)@,
            old(div)@,
            iterations as nat,
        ),
        final(vx)@ == projected_x(old(vx).dim(), old(vx)@, final(p)@),
        final(vy)@ == projected_y(old(vx).dim(), old(vy)@, final(p)@),
{
    measure_divergence(vx, vy, div);
    p.clear();
    enforce(FieldKind::Scalar, div);
    enforce(FieldKind::Scalar, p);
    proof {
        lemma_enforce_zeros(FieldKind::Scalar, p.dim());
    }
    relax(FieldKind::Scalar, p, div, Fixed::one(), Fixed::from_int(6), iterations);
    subtract_gradient(vx, vy, p);
    enforce(FieldKind::VelocityX, vx);
    enforce(FieldKind::VelocityY, vy);
}

/// Projecting a velocity field that is zero everywhere, with zero scratch
/// fields, leaves all four fields zero.
pub proof fn lemma_project_zeros(n: int, iterations: nat)
    requires
        n >= 1,
    ensures
        divergence_spec(n, zeros(n), zeros(n), zeros(n)) == zeros(n),
        pressure_spec(n, zeros(n), zeros(n), zeros(n), iterations) == zeros(n),
        projected_x(n, zeros(n), zeros(n)) == zeros(n),
        projected_y(n, zeros(n), zeros(n)) == zeros(n),
{
    let z = zeros(n);
    assert forall|k: int| 0 <= k < n * n implies (#[trigger] divergence_interior(n, z, z, z)[k])
        == 0 by {
        lemma_index_of_cell(n, k);
        let i = col_spec(n, k);
        let j = row_spec(n, k);
        lemma_index_in_bounds(n, i + 1, j);
        lemma_index_in_bounds(n, i - 1, j);
        lemma_index_in_bounds(n, i, j + 1);
        lemma_index_in_bounds(n, i, j - 1);
        assert(flow_difference(n, z, z, i, j) == 0);
        lemma_quotient_bounds(0, 2 * n);
    }
    assert(divergence_interior(n, z, z, z) =~= z);
    lemma_enforce_zeros(FieldKind::Scalar, n);
    lemma_relax_zeros(FieldKind::Scalar, n, ONE_RAW as int, 6 * ONE_RAW, iterations);
    assert forall|k: int| 0 <= k < n * n implies (#[trigger] without_gradient_x(n, z, z)[k])
        == 0 by {
        let i = col_spec(n, k);
        let j = row_spec(n, k);
        lemma_index_in_bounds(n, i + 1, j);
        lemma_index_in_bounds(n, i - 1, j);
        lemma_quotient_bounds(0, 2);
        assert(0 * n == 0);
    }
    assert forall|k: int| 0 <= k < n * n implies (#[trigger] without_gradient_y(n, z, z)[k])
        == 0 by {
        let i = col_spec(n, k);
        let j = row_spec(n, k);
        lemma_index_in_bounds(n, i, j + 1);
        lemma_index_in_bounds(n, i, j - 1);
        lemma_quotient_bounds(0, 2);
        assert(0 * n == 0);
    }
    assert(without_gradient_x(n, z, z) =~= z);
    assert(without_gradient_y(n, z, z) =~= z);
    lemma_enforce_zeros(FieldKind::VelocityX, n);
    lemma_enforce_zeros(FieldKind::VelocityY, n);
}

/// The pressure is nowhere larger in magnitude than the largest cell of
/// the divergence.
pub proof fn lemma_pressure_bounded(
    n: int,
    vx: Seq<int>,
    vy: Seq<int>,
    div: Seq<int>,
    iterations: nat,
    m: int,
)
    requires
        n >= 1,
        div.len() == n * n,
        0 <= m <= MAX_RAW,
        bounded_by(divergence_spec(n, vx, vy, div), m),
    ensures
        bounded_by(pressure_spec(n, vx, vy, div, iterations), m),
{
    lemma_enforce_len(FieldKind::Scalar, n, divergence_interior(n, vx, vy, div));
    lemma_relax_is_stable(
        FieldKind::Scalar,
        n,
        zeros(n),
        divergence_spec(n, vx, vy, div),
        ONE_RAW as int,
        6 * ONE_RAW,
        iterations,
        m,
    );
}

} // verus!
