//! The relaxation solver: Gauss-Seidel sweeps for the linear systems of
//! diffusion and of the pressure equation.
//!
//! One sweep visits the cells off the edges row by row and replaces each
//! by `(x0 + a * (sum of its four neighbours)) / c`, reading the neighbours
//! as the sweep has left them so far. The boundary enforcer runs after
//! every sweep.

use vstd::prelude::*;
use crate::boundary::{
    enforce, enforce_spec, lemma_enforce_keeps_bound, lemma_enforce_len, lemma_enforce_zeros,
    FieldKind,
};
use crate::fixed::{
    lemma_quotient_bounds, product_spec, quotient, ratio_spec, sum_spec, Fixed, MAX_RAW, ONE_RAW,
};
use crate::grid::{
    bounded_by, col_spec, index_spec, is_interior, lemma_cell_of_index, lemma_index_in_bounds,
    lemma_update_at, row_spec, zeros, Field,
};

verus! {

/// The value `(centre + a * (sum of the four neighbours)) / c`, the
/// neighbours added in the order next column, previous column, next row,
/// previous row.
pub open spec fn stencil(
    centre: int,
    a: int,
    c: int,
    next_col: int,
    prev_col: int,
    next_row: int,
    prev_row: int,
) -> int {
    ratio_spec(
        sum_spec(
            centre,
            product_spec(a, sum_spec(sum_spec(sum_spec(next_col, prev_col), next_row), prev_row)),
        ),
        c,
    )
}

/// The value that a sweep gives the cell `(i, j)` when the field holds `x`.
pub open spec fn relaxed_value(
    n: int,
    x: Seq<int>,
    x0: Seq<int>,
    a: int,
    c: int,
    i: int,
    j: int,
) -> int {
    stencil(
        x0[index_spec(n, i, j)],
        a,
        c,
        x[index_spec(n, i + 1, j)],
        x[index_spec(n, i - 1, j)],
        x[index_spec(n, i, j + 1)],
        x[index_spec(n, i, j - 1)],
    )
}

/// `x` after the sweep has visited the columns `1 .. i` of row `j`.
pub open spec fn sweep_row(
    n: int,
    x: Seq<int>,
    x0: Seq<int>,
    a: int,
    c: int,
    j: int,
    i: int,
) -> Seq<int>
    decreases i,
{
    if i <= 1 {
        x
    } else {
        let p = sweep_row(n, x, x0, a, c, j, i - 1);
        p.update(index_spec(n, i - 1, j), relaxed_value(n, p, x0, a, c, i - 1, j))
    }
}

/// `x` after the sweep has visited the rows `1 .. j`, each from column 1
/// to column `n - 2`.
pub open spec fn sweep_rows(n: int, x: Seq<int>, x0: Seq<int>, a: int, c: int, j: int) -> Seq<
    int,
>
    decreases j,
{
    if j <= 1 {
        x
    } else {
        sweep_row(n, sweep_rows(n, x, x0, a, c, j - 1), x0, a, c, j - 1, n - 1)
    }
}

/// `x` after one sweep over every cell off the edges.
pub open spec fn sweep_spec(n: int, x: Seq<int>, x0: Seq<int>, a: int, c: int) -> Seq<int> {
    sweep_rows(n, x, x0, a, c, n - 1)
}

/// `x` after the given number of sweeps, the boundary enforcer run after
/// each.
pub open spec fn relax_spec(
    kind: FieldKind,
    n: int,
    x: Seq<int>,
    x0: Seq<int>,
    a: int,
    c: int,
    iterations: nat,
) -> Seq<int>
    decreases iterations,
{
    if iterations == 0 {
        x
    } else {
        enforce_spec(
            kind,
            n,
            sweep_spec(n, relax_spec(kind, n, x, x0, a, c, (iterations - 1) as nat), x0, a, c),
        )
    }
}

/// A sweep keeps the number of cells.
pub proof fn lemma_sweep_row_len(
    n: int,
    x: Seq<int>,
    x0: Seq<int>,
    a: int,
    c: int,
    j: int,
    i: int,
)
    requires
        n >= 1,
        x.len() == n * n,
    ensures
        sweep_row(n, x, x0, a, c, j, i).len() == x.len(),
    decreases i,
{
    if i > 1 {
        lemma_sweep_row_len(n, x, x0, a, c, j, i - 1);
        lemma_index_in_bounds(n, i - 1, j);
    }
}

/// A sweep keeps the number of cells.
pub proof fn lemma_sweep_rows_len(n: int, x: Seq<int>, x0: Seq<int>, a: int, c: int, j: int)
    requires
        n >= 1,
        x.len() == n * n,
    ensures
        sweep_rows(n, x, x0, a, c, j).len() == x.len(),
    decreases j,
{
    if j > 1 {
        lemma_sweep_rows_len(n, x, x0, a, c, j - 1);
        lemma_sweep_row_len(n, sweep_rows(n, x, x0, a, c, j - 1), x0, a, c, j - 1, n - 1);
    }
}

fn relaxed(x: &Field, x0: &Field, a: Fixed, c: Fixed, i: i64, j: i64) -> (v: Fixed)
    requires
        x.wf(),
        x0.wf(),
        x0.dim() == x.dim(),
        -0x10000 <= i <= 0x10000,
        -0x10000 <= j <= 0x10000,
    ensures
        v@ == relaxed_value(x.dim(), x@, x0@, a@, c@, i as int, j as int),
{
    let around: Fixed = x.get(i + 1, j).saturating_add(x.get(i - 1, j)).saturating_add(
        x.get(i, j + 1),
    ).saturating_add(x.get(i, j - 1));
    x0.get(i, j).saturating_add(a.saturating_mul(around)).saturating_div(c)
}

/// One sweep over every cell off the edges, row by row.
pub fn sweep(x: &mut Field, x0: &Field, a: Fixed, c: Fixed)
    requires
        old(x).wf(),
        x0.wf(),
        x0.dim() == old(x).dim(),
    ensures
        final(x).wf(),
        final(x).dim() == old(x).dim(),
        final(x)@ == sweep_spec(old(x).dim(), old(x)@, x0@, a@, c@),
{
    let n: usize = x.size();
    let last: i64 = n as i64 - 1;
    let ghost m: int = n as int;
    let ghost before: Seq<int> = x@;
    let mut j: i64 = 1;
    while j < last
        invariant
            x.wf(),
            x0.wf(),
            x.dim() == m,
            x0.dim() == m,
            last == m - 1,
            1 <= j,
            j <= last || j == 1,
            x@ == sweep_rows(m, before, x0@, a@, c@, j as int),
        decreases last - j,
    {
        let ghost row_start: Seq<int> = x@;
        let mut i: i64 = 1;
        while i < last
            invariant
                x.wf(),
                x0.wf(),
                x.dim() == m,
                x0.dim() == m,
                last == m - 1,
                1 <= j < last,
                1 <= i <= last,
                x@ == sweep_row(m, row_start, x0@, a@, c@, j as int, i as int),
            decreases last - i,
        {
            let v: Fixed = relaxed(x, x0, a, c, i, j);
            x.set(i, j, v);
            i += 1;
        }
        j += 1;
    }
}

/// Solves `x = (x0 + a * (sum of the neighbours of x)) / c` approximately on
/// the cells off the edges, by `iterations` sweeps from the present `x`,
/// and enforces the boundary after each.
pub fn relax(
    kind: FieldKind,
    x: &mut Field,
    x0: &Field,
    a: Fixed,
    c: Fixed,
    iterations: usize,
)
    requires
        old(x).wf(),
        x0.wf(),
        x0.dim() == old(x).dim(),
    ensures
        final(x).wf(),
        final(x).dim() == old(x).dim(),
        final(x)@ == relax_spec(
            kind,
            old(x).dim(),
            old(x)@,
            x0@,
            a@,
            c@,
            iterations as nat,
        ),
{
    let ghost m: int = x.dim();
    let ghost before: Seq<int> = x@;
    let mut done: usize = 0;
    while done < iterations
        invariant
            x.wf(),
            x0.wf(),
            x.dim() == m,
            x0.dim() == m,
            done <= iterations,
            x@ == relax_spec(kind, m, before, x0@, a@, c@, done as nat),
        decreases iterations - done,
    {
        sweep(x, x0, a, c);
        enforce(kind, x);
        done += 1;
    }
}

/// Relaxing the all-zero field against the all-zero field leaves it zero,
/// whatever the coefficients.
pub proof fn lemma_relax_zeros(kind: FieldKind, n: int, a: int, c: int, iterations: nat)
    requires
        n >= 1,
    ensures
        relax_spec(kind, n, zeros(n), zeros(n), a, c, iterations) == zeros(n),
    decreases iterations,
{
    if iterations > 0 {
        lemma_relax_zeros(kind, n, a, c, (iterations - 1) as nat);
        lemma_sweep_rows_zeros(n, a, c, n - 1);
        lemma_enforce_zeros(kind, n);
    }
}

proof fn lemma_relaxed_value_zeros(n: int, a: int, c: int, i: int, j: int)
    requires
        n >= 1,
    ensures
        relaxed_value(n, zeros(n), zeros(n), a, c, i, j) == 0,
{
    lemma_index_in_bounds(n, i, j);
    lemma_index_in_bounds(n, i + 1, j);
    lemma_index_in_bounds(n, i - 1, j);
    lemma_index_in_bounds(n, i, j + 1);
    lemma_index_in_bounds(n, i, j - 1);
    assert(a * 0 == 0);
    assert(product_spec(a, 0) == 0);
    if c != 0 {
        lemma_quotient_bounds(0, c);
    }
}

proof fn lemma_sweep_row_zeros(n: int, a: int, c: int, j: int, i: int)
    requires
        n >= 1,
    ensures
        sweep_row(n, zeros(n), zeros(n), a, c, j, i) == zeros(n),
    decreases i,
{
    if i > 1 {
        lemma_sweep_row_zeros(n, a, c, j, i - 1);
        lemma_relaxed_value_zeros(n, a, c, i - 1, j);
        lemma_index_in_bounds(n, i - 1, j);
        assert(zeros(n).update(index_spec(n, i - 1, j), 0) =~= zeros(n));
    }
}

proof fn lemma_sweep_rows_zeros(n: int, a: int, c: int, j: int)
    requires
        n >= 1,
    ensures
        sweep_rows(n, zeros(n), zeros(n), a, c, j) == zeros(n),
    decreases j,
{
    if j > 1 {
        lemma_sweep_rows_zeros(n, a, c, j - 1);
        lemma_sweep_row_zeros(n, a, c, j - 1, n - 1);
    }
}

/// What the visit of row `j` up to column `i` has made of the field `y`: a
/// cell that it has been at holds the value it was given there, any other
/// holds what `y` holds.
proof fn lemma_row_frame(
    n: int,
    y: Seq<int>,
    x0: Seq<int>,
    a: int,
    c: int,
    j: int,
    i: int,
    k: int,
)
    requires
        y.len() == n * n,
        1 <= j <= n - 2,
        i <= n - 1,
        0 <= k < n * n,
    ensures
        sweep_row(n, y, x0, a, c, j, i)[k] == (if row_spec(n, k) == j && 1 <= col_spec(n, k) < i {
            relaxed_value(n, sweep_row(n, y, x0, a, c, j, col_spec(n, k)), x0, a, c, col_spec(n, k), j)
        } else {
            y[k]
        }),
    decreases i,
{
    if i > 1 {
        let p = sweep_row(n, y, x0, a, c, j, i - 1);
        lemma_sweep_row_len(n, y, x0, a, c, j, i - 1);
        lemma_row_frame(n, y, x0, a, c, j, i - 1, k);
        lemma_update_at(n, p, i - 1, j, relaxed_value(n, p, x0, a, c, i - 1, j));
    }
}

/// What the visit of the rows before `j` has made of the field `x`.
proof fn lemma_rows_frame(n: int, x: Seq<int>, x0: Seq<int>, a: int, c: int, j: int, k: int)
    requires
        x.len() == n * n,
        n >= 1,
        j <= n - 1,
        0 <= k < n * n,
    ensures
        sweep_rows(n, x, x0, a, c, j)[k] == (if is_interior(n, col_spec(n, k), row_spec(n, k))
            && row_spec(n, k) < j {
            relaxed_value(
                n,
                sweep_row(
                    n,
                    sweep_rows(n, x, x0, a, c, row_spec(n, k)),
                    x0,
                    a,
                    c,
                    row_spec(n, k),
                    col_spec(n, k),
                ),
                x0,
                a,
                c,
                col_spec(n, k),
                row_spec(n, k),
            )
        } else {
            x[k]
        }),
    decreases j,
{
    if j > 1 {
        let y = sweep_rows(n, x, x0, a, c, j - 1);
        lemma_sweep_rows_len(n, x, x0, a, c, j - 1);
        lemma_rows_frame(n, x, x0, a, c, j - 1, k);
        lemma_row_frame(n, y, x0, a, c, j - 1, n - 1, k);
    }
}

/// A sweep leaves every cell on the edges as it was.
pub proof fn lemma_sweep_keeps_edges(n: int, x: Seq<int>, x0: Seq<int>, a: int, c: int, k: int)
    requires
        n >= 1,
        x.len() == n * n,
        0 <= k < n * n,
        !is_interior(n, col_spec(n, k), row_spec(n, k)),
    ensures
        sweep_spec(n, x, x0, a, c)[k] == x[k],
{
    lemma_rows_frame(n, x, x0, a, c, n - 1, k);
}

/// A sweep is one pass of Gauss-Seidel: the value it leaves in a cell off
/// the edges solves the equation of that cell with the neighbours in the
/// previous column and row as the sweep leaves them, and those in the
/// next column and row as it found them.
pub proof fn lemma_sweep_is_gauss_seidel(
    n: int,
    x: Seq<int>,
    x0: Seq<int>,
    a: int,
    c: int,
    i: int,
    j: int,
)
    requires
        x.len() == n * n,
        is_interior(n, i, j),
    ensures
        ({
            let r = sweep_spec(n, x, x0, a, c);
            r[index_spec(n, i, j)] == stencil(
                x0[index_spec(n, i, j)],
                a,
                c,
                x[index_spec(n, i + 1, j)],
                r[index_spec(n, i - 1, j)],
                x[index_spec(n, i, j + 1)],
                r[index_spec(n, i, j - 1)],
            )
        }),
{
    let r = sweep_spec(n, x, x0, a, c);
    let y = sweep_rows(n, x, x0, a, c, j);
    let t = sweep_row(n, y, x0, a, c, j, i);
    lemma_sweep_rows_len(n, x, x0, a, c, j);
    lemma_cell_of_index(n, i, j);
    lemma_cell_of_index(n, i + 1, j);
    lemma_cell_of_index(n, i - 1, j);
    lemma_cell_of_index(n, i, j + 1);
    lemma_cell_of_index(n, i, j - 1);
    let here = index_spec(n, i, j);
    let next_col = index_spec(n, i + 1, j);
    let prev_col = index_spec(n, i - 1, j);
    let next_row = index_spec(n, i, j + 1);
    let prev_row = index_spec(n, i, j - 1);
    lemma_rows_frame(n, x, x0, a, c, n - 1, here);
    assert(r[here] == relaxed_value(n, t, x0, a, c, i, j));
    assert(t[next_col] == x[next_col]) by {
        lemma_row_frame(n, y, x0, a, c, j, i, next_col);
        lemma_rows_frame(n, x, x0, a, c, j, next_col);
    }
    assert(t[next_row] == x[next_row]) by {
        lemma_row_frame(n, y, x0, a, c, j, i, next_row);
        lemma_rows_frame(n, x, x0, a, c, j, next_row);
    }
    assert(t[prev_col] == r[prev_col]) by {
        lemma_row_frame(n, y, x0, a, c, j, i, prev_col);
        lemma_rows_frame(n, x, x0, a, c, j, prev_col);
        lemma_rows_frame(n, x, x0, a, c, n - 1, prev_col);
    }
    assert(t[prev_row] == r[prev_row]) by {
        lemma_row_frame(n, y, x0, a, c, j, i, prev_row);
        lemma_rows_frame(n, x, x0, a, c, j, prev_row);
        lemma_rows_frame(n, x, x0, a, c, n - 1, prev_row);
    }
}

/// The stencil of a damped system gives nothing larger in magnitude than
/// the largest value it reads.
proof fn lemma_stencil_bounded(
    centre: int,
    a: int,
    c: int,
    next_col: int,
    prev_col: int,
    next_row: int,
    prev_row: int,
    m: int,
)
    requires
        0 <= m <= MAX_RAW,
        0 <= a,
        c >= ONE_RAW + 4 * a,
        -m <= centre <= m,
        -m <= next_col <= m,
        -m <= prev_col <= m,
        -m <= next_row <= m,
        -m <= prev_row <= m,
    ensures
        -m <= stencil(centre, a, c, next_col, prev_col, next_row, prev_row) <= m,
{
    let one = ONE_RAW as int;
    let around = sum_spec(sum_spec(sum_spec(next_col, prev_col), next_row), prev_row);
    let scaled = a * around;
    assert(-(4 * (a * m)) <= scaled <= 4 * (a * m)) by (nonlinear_arith)
        requires
            0 <= a,
            -(4 * m) <= around <= 4 * m,
            scaled == a * around,
    ;
    let share = quotient(scaled, one);
    assert(-(4 * (a * m)) <= share * one <= 4 * (a * m));
    let numerator = sum_spec(centre, product_spec(a, around));
    assert(-(m * one + 4 * (a * m)) <= numerator * one <= m * one + 4 * (a * m));
    assert(m * one + 4 * (a * m) <= m * c) by (nonlinear_arith)
        requires
            0 <= m,
            c >= one + 4 * a,
    ;
    let wide = numerator * one;
    let d: int = if wide >= 0 { wide } else { -wide };
    assert(d / c <= m) by (nonlinear_arith)
        requires
            0 <= d <= m * c,
            c > 0,
    ;
    assert(0 <= d / c) by (nonlinear_arith)
        requires
            0 <= d,
            c > 0,
    ;
}

proof fn lemma_sweep_row_bounded(
    n: int,
    y: Seq<int>,
    x0: Seq<int>,
    a: int,
    c: int,
    j: int,
    i: int,
    m: int,
)
    requires
        n >= 1,
        y.len() == n * n,
        x0.len() == n * n,
        0 <= m <= MAX_RAW,
        0 <= a,
        c >= ONE_RAW + 4 * a,
        bounded_by(y, m),
        bounded_by(x0, m),
    ensures
        bounded_by(sweep_row(n, y, x0, a, c, j, i), m),
    decreases i,
{
    if i > 1 {
        let p = sweep_row(n, y, x0, a, c, j, i - 1);
        lemma_sweep_row_len(n, y, x0, a, c, j, i - 1);
        lemma_sweep_row_bounded(n, y, x0, a, c, j, i - 1, m);
        lemma_index_in_bounds(n, i - 1, j);
        lemma_index_in_bounds(n, i, j);
        lemma_index_in_bounds(n, i - 2, j);
        lemma_index_in_bounds(n, i - 1, j + 1);
        lemma_index_in_bounds(n, i - 1, j - 1);
        lemma_stencil_bounded(
            x0[index_spec(n, i - 1, j)],
            a,
            c,
            p[index_spec(n, i, j)],
            p[index_spec(n, i - 2, j)],
            p[index_spec(n, i - 1, j + 1)],
            p[index_spec(n, i - 1, j - 1)],
            m,
        );
    }
}

proof fn lemma_sweep_rows_bounded(
    n: int,
    x: Seq<int>,
    x0: Seq<int>,
    a: int,
    c: int,
    j: int,
    m: int,
)
    requires
        n >= 1,
        x.len() == n * n,
        x0.len() == n * n,
        0 <= m <= MAX_RAW,
        0 <= a,
        c >= ONE_RAW + 4 * a,
        bounded_by(x, m),
        bounded_by(x0, m),
    ensures
        bounded_by(sweep_rows(n, x, x0, a, c, j), m),
    decreases j,
{
    if j > 1 {
        lemma_sweep_rows_len(n, x, x0, a, c, j - 1);
        lemma_sweep_rows_bounded(n, x, x0, a, c, j - 1, m);
        lemma_sweep_row_bounded(n, sweep_rows(n, x, x0, a, c, j - 1), x0, a, c, j - 1, n - 1, m);
    }
}

/// Relaxation keeps the number of cells.
pub proof fn lemma_relax_len(
    kind: FieldKind,
    n: int,
    x: Seq<int>,
    x0: Seq<int>,
    a: int,
    c: int,
    iterations: nat,
)
    requires
        n >= 1,
        x.len() == n * n,
    ensures
        relax_spec(kind, n, x, x0, a, c, iterations).len() == n * n,
    decreases iterations,
{
    if iterations > 0 {
        let before = relax_spec(kind, n, x, x0, a, c, (iterations - 1) as nat);
        lemma_relax_len(kind, n, x, x0, a, c, (iterations - 1) as nat);
        lemma_sweep_rows_len(n, before, x0, a, c, n - 1);
        lemma_enforce_len(kind, n, sweep_spec(n, before, x0, a, c));
    }
}

/// Relaxation of a damped system is stable: where `a` is not negative and
/// `c` is at least `1 + 4 * a`, no cell comes out larger in magnitude than
/// the largest cell of the first guess and of `x0`.
pub proof fn lemma_relax_is_stable(
    kind: FieldKind,
    n: int,
    x: Seq<int>,
    x0: Seq<int>,
    a: int,
    c: int,
    iterations: nat,
    m: int,
)
    requires
        n >= 1,
        x.len() == n * n,
        x0.len() == n * n,
        0 <= m <= MAX_RAW,
        0 <= a,
        c >= ONE_RAW + 4 * a,
        bounded_by(x, m),
        bounded_by(x0, m),
    ensures
        bounded_by(relax_spec(kind, n, x, x0, a, c, iterations), m),
    decreases iterations,
{
    if iterations > 0 {
        let before = relax_spec(kind, n, x, x0, a, c, (iterations - 1) as nat);
        lemma_relax_is_stable(kind, n, x, x0, a, c, (iterations - 1) as nat, m);
        lemma_relax_len(kind, n, x, x0, a, c, (iterations - 1) as nat);
        lemma_sweep_rows_bounded(n, before, x0, a, c, n - 1, m);
        lemma_sweep_rows_len(n, before, x0, a, c, n - 1);
        lemma_enforce_keeps_bound(kind, n, sweep_spec(n, before, x0, a, c), m);
    }
}

} // verus!
