//! The diffusion step: spreads a field over neighbouring cells by solving
//! the implicit diffusion system with the relaxation solver.

use vstd::prelude::*;
use crate::boundary::FieldKind;
use crate::fixed::{
    lemma_quotient_bounds, multiple_spec, product_spec, sum_spec, Fixed, MAX_RAW, ONE_RAW,
};
use crate::grid::{bounded_by, zeros, Field};
use crate::solver::{
    lemma_relax_is_stable, lemma_relax_len, lemma_relax_zeros, relax, relax_spec,
};

verus! {

/// The coefficient `a = dt * rate * (n - 2)^2` of the diffusion system. The
/// timestep is scaled by the grid first, which keeps a small rate exact.
pub open spec fn diffusion_coefficient(n: int, rate: int, dt: int) -> int {
    product_spec(multiple_spec(dt, (n - 2) * (n - 2)), rate)
}

/// The divisor `c = 1 + 6 * a` of the diffusion system.
pub open spec fn diffusion_divisor(a: int) -> int {
    sum_spec(ONE_RAW as int, multiple_spec(a, 6))
}

/// The field that diffusing `input` makes of `out`, whose present cells
/// are the first guess of the relaxation.
pub open spec fn diffuse_spec(
    kind: FieldKind,
    n: int,
    out: Seq<int>,
    input: Seq<int>,
    rate: int,
    dt: int,
    iterations: nat,
) -> Seq<int> {
    relax_spec(
        kind,
        n,
        out,
        input,
        diffusion_coefficient(n, rate, dt),
        diffusion_divisor(diffusion_coefficient(n, rate, dt)),
        iterations,
    )
}

/// Diffuses `input` into `out` at the given rate over one timestep `dt`.
pub fn diffuse(
    kind: FieldKind,
    out: &mut Field,
    input: &Field,
    rate: Fixed,
    dt: Fixed,
    iterations: usize,
)
    requires
        old(out).wf(),
        input.wf(),
        input.dim() == old(out).dim(),
    ensures
        final(out).wf(),
        final(out).dim() == old(out).dim(),
        final(out)@ == diffuse_spec(
            kind,
            old(out).dim(),
            old(out)@,
            input@,
            rate@,
            dt@,
            iterations as nat,
        ),
{
    let span: i64 = out.size() as i64 - 2;
    assert(0 <= span * span <= 0xffff * 0xffff) by (nonlinear_arith)
        requires
            -1 <= span <= 0xffff,
    ;
    let a: Fixed = dt.multiple(span * span).saturating_mul(rate);
    let c: Fixed = Fixed::one().saturating_add(a.multiple(6));
    relax(kind, out, input, a, c, iterations);
}

/// Diffusing the all-zero field into the all-zero field leaves it zero.
pub proof fn lemma_diffuse_zeros(kind: FieldKind, n: int, rate: int, dt: int, iterations: nat)
    requires
        n >= 1,
    ensures
        diffuse_spec(kind, n, zeros(n), zeros(n), rate, dt, iterations) == zeros(n),
{
    let a = diffusion_coefficient(n, rate, dt);
    lemma_relax_zeros(kind, n, a, diffusion_divisor(a), iterations);
}

/// Diffusion is stable: with a rate and a timestep that are not negative,
/// and a coefficient small enough for `1 + 6 * a` to be representable, no
/// cell comes out larger in magnitude than the largest cell of the input
/// and of the first guess.
pub proof fn lemma_diffuse_is_stable(
    kind: FieldKind,
    n: int,
    out: Seq<int>,
    input: Seq<int>,
    rate: int,
    dt: int,
    iterations: nat,
    m: int,
)
    requires
        n >= 1,
        out.len() == n * n,
        input.len() == n * n,
        0 <= rate,
        0 <= dt,
        6 * diffusion_coefficient(n, rate, dt) <= MAX_RAW - ONE_RAW,
        0 <= m <= MAX_RAW,
        bounded_by(out, m),
        bounded_by(input, m),
    ensures
        diffuse_spec(kind, n, out, input, rate, dt, iterations).len() == n * n,
        bounded_by(diffuse_spec(kind, n, out, input, rate, dt, iterations), m),
{
    let a = diffusion_coefficient(n, rate, dt);
    let span = (n - 2) * (n - 2);
    assert(span >= 0) by (nonlinear_arith)
        requires
            span == (n - 2) * (n - 2),
    ;
    assert(dt * span >= 0) by (nonlinear_arith)
        requires
            dt >= 0,
            span >= 0,
    ;
    let scaled = multiple_spec(dt, span);
    assert(scaled * rate >= 0) by (nonlinear_arith)
        requires
            scaled >= 0,
            rate >= 0,
    ;
    lemma_quotient_bounds(scaled * rate, ONE_RAW as int);
    assert(a >= 0);
    lemma_relax_is_stable(kind, n, out, input, a, diffusion_divisor(a), iterations, m);
    lemma_relax_len(kind, n, out, input, a, diffusion_divisor(a), iterations);
}

} // verus!
