//! The boundary enforcer: rewrites the edge and corner cells of a field
//! from the cells one step inward.
//!
//! An edge cell that is no corner takes the value of its inward neighbour,
//! negated where the edge is perpendicular to the velocity component that
//! the field holds. A corner then takes a weighted sum of its two
//! neighbours along the edges.

use vstd::prelude::*;
use crate::fixed::{lemma_quotient_bounds, product_spec, sum_spec, Fixed, MAX_RAW, ONE_RAW};
use crate::grid::{
    bounded_by, col_spec, index_spec, is_interior, lemma_cell_of_index, lemma_index_in_bounds,
    lemma_index_of_cell, lemma_update_at, row_spec, zeros, Field,
};

verus! {

/// Raw value of the weight that a corner gives to the sum of its two
/// neighbours: 0.33, rounded toward zero.
pub const CORNER_WEIGHT_RAW: i64 = 1417339207;

/// What a field holds, which decides how its edges reflect.
#[derive(Clone, Copy, Debug, PartialEq, Eq)]
pub enum FieldKind {
    /// A quantity carried by the flow; no edge negates it.
    Scalar,
    /// The horizontal velocity component; the left and right edges negate it.
    VelocityX,
    /// The vertical velocity component; the top and bottom edges negate it.
    VelocityY,
}

impl FieldKind {
    /// Whether the left and right edges negate a field of this kind.
    pub fn negates_sides(self) -> (b: bool)
        ensures
            b == (self is VelocityX),
    {
        match self {
            FieldKind::VelocityX => true,
            _ => false,
        }
    }

    /// Whether the top and bottom edges negate a field of this kind.
    pub fn negates_ends(self) -> (b: bool)
        ensures
            b == (self is VelocityY),
    {
        match self {
            FieldKind::VelocityY => true,
            _ => false,
        }
    }
}

/// Whether `(x, y)` is a cell of the top or bottom edge and no corner.
pub open spec fn is_end_edge(n: int, x: int, y: int) -> bool {
    1 <= x <= n - 2 && (y == 0 || y == n - 1)
}

/// Whether `(x, y)` is a cell of the left or right edge and no corner.
pub open spec fn is_side_edge(n: int, x: int, y: int) -> bool {
    1 <= y <= n - 2 && (x == 0 || x == n - 1)
}

/// `v`, negated where `negate` holds.
pub open spec fn reflect(negate: bool, v: int) -> int {
    if negate {
        -v
    } else {
        v
    }
}

/// The value that the edge cell `(x, y)` takes from its inward neighbour.
pub open spec fn edge_value(kind: FieldKind, n: int, f: Seq<int>, x: int, y: int) -> int {
    if y == 0 {
        reflect(kind is VelocityY, f[index_spec(n, x, 1)])
    } else if y == n - 1 {
        reflect(kind is VelocityY, f[index_spec(n, x, n - 2)])
    } else if x == 0 {
        reflect(kind is VelocityX, f[index_spec(n, 1, y)])
    } else {
        reflect(kind is VelocityX, f[index_spec(n, n - 2, y)])
    }
}

/// `f` with every edge cell that is no corner mirrored from its inward
/// neighbour.
pub open spec fn mirror_edges(kind: FieldKind, n: int, f: Seq<int>) -> Seq<int> {
    Seq::new(
        f.len(),
        |k: int|
            if is_end_edge(n, col_spec(n, k), row_spec(n, k)) || is_side_edge(
                n,
                col_spec(n, k),
                row_spec(n, k),
            ) {
                edge_value(kind, n, f, col_spec(n, k), row_spec(n, k))
            } else {
                f[k]
            },
    )
}

/// The value of a corner whose neighbours along the edges hold `a` and `b`.
pub open spec fn corner_value(a: int, b: int) -> int {
    product_spec(CORNER_WEIGHT_RAW as int, sum_spec(a, b))
}

/// `f` with the cell `(x, y)` set from the cells `(ax, ay)` and `(bx, by)`.
pub open spec fn with_corner(
    n: int,
    f: Seq<int>,
    x: int,
    y: int,
    ax: int,
    ay: int,
    bx: int,
    by: int,
) -> Seq<int> {
    f.update(
        index_spec(n, x, y),
        corner_value(f[index_spec(n, ax, ay)], f[index_spec(n, bx, by)]),
    )
}

/// `f` with its four corners set, one after the other, each from its two
/// neighbours along the edges.
pub open spec fn average_corners(n: int, f: Seq<int>) -> Seq<int> {
    let a = with_corner(n, f, 0, 0, 1, 0, 0, 1);
    let b = with_corner(n, a, 0, n - 1, 1, n - 1, 0, n - 2);
    let c = with_corner(n, b, n - 1, 0, n - 2, 0, n - 1, 1);
    with_corner(n, c, n - 1, n - 1, n - 2, n - 1, n - 1, n - 2)
}

/// The field that the boundary enforcer makes of `f`.
pub open spec fn enforce_spec(kind: FieldKind, n: int, f: Seq<int>) -> Seq<int> {
    average_corners(n, mirror_edges(kind, n, f))
}

/// Whether `(x, y)` is one of the four corners.
pub open spec fn is_corner(n: int, x: int, y: int) -> bool {
    (x == 0 || x == n - 1) && (y == 0 || y == n - 1)
}

/// The enforcer keeps the number of cells.
pub proof fn lemma_enforce_len(kind: FieldKind, n: int, f: Seq<int>)
    requires
        n >= 1,
        f.len() == n * n,
    ensures
        enforce_spec(kind, n, f).len() == n * n,
{
    lemma_index_in_bounds(n, 0, 0);
    lemma_index_in_bounds(n, 0, n - 1);
    lemma_index_in_bounds(n, n - 1, 0);
    lemma_index_in_bounds(n, n - 1, n - 1);
}

/// Setting the corners changes no other cell.
pub proof fn lemma_corners_keep_the_rest(n: int, f: Seq<int>, k: int)
    requires
        n >= 1,
        f.len() == n * n,
        0 <= k < n * n,
        !is_corner(n, col_spec(n, k), row_spec(n, k)),
    ensures
        average_corners(n, f).len() == n * n,
        average_corners(n, f)[k] == f[k],
{
    let a = with_corner(n, f, 0, 0, 1, 0, 0, 1);
    let b = with_corner(n, a, 0, n - 1, 1, n - 1, 0, n - 2);
    let c = with_corner(n, b, n - 1, 0, n - 2, 0, n - 1, 1);
    lemma_cell_of_index(n, 0, 0);
    lemma_cell_of_index(n, 0, n - 1);
    lemma_cell_of_index(n, n - 1, 0);
    lemma_cell_of_index(n, n - 1, n - 1);
    lemma_index_of_cell(n, k);
}

/// The enforcer leaves every cell off the edges as it was.
pub proof fn lemma_enforce_keeps_interior(kind: FieldKind, n: int, f: Seq<int>, x: int, y: int)
    requires
        f.len() == n * n,
        is_interior(n, x, y),
    ensures
        enforce_spec(kind, n, f).len() == n * n,
        enforce_spec(kind, n, f)[index_spec(n, x, y)] == f[index_spec(n, x, y)],
{
    lemma_cell_of_index(n, x, y);
    lemma_corners_keep_the_rest(n, mirror_edges(kind, n, f), index_spec(n, x, y));
}

/// After the enforcer has run, each cell of the left and right edges that
/// is no corner holds the value of its inward neighbour, negated for the
/// horizontal velocity component and for no other kind; the top and bottom
/// edges likewise, negated for the vertical component.
pub proof fn lemma_enforce_mirrors(kind: FieldKind, n: int, f: Seq<int>, j: int)
    requires
        f.len() == n * n,
        1 <= j <= n - 2,
    ensures
        ({
            let g = enforce_spec(kind, n, f);
            &&& g[index_spec(n, 0, j)] == reflect(kind is VelocityX, g[index_spec(n, 1, j)])
            &&& g[index_spec(n, n - 1, j)] == reflect(
                kind is VelocityX,
                g[index_spec(n, n - 2, j)],
            )
            &&& g[index_spec(n, j, 0)] == reflect(kind is VelocityY, g[index_spec(n, j, 1)])
            &&& g[index_spec(n, j, n - 1)] == reflect(
                kind is VelocityY,
                g[index_spec(n, j, n - 2)],
            )
        }),
{
    let h = mirror_edges(kind, n, f);
    lemma_cell_of_index(n, 0, j);
    lemma_cell_of_index(n, 1, j);
    lemma_cell_of_index(n, n - 2, j);
    lemma_cell_of_index(n, n - 1, j);
    lemma_cell_of_index(n, j, 0);
    lemma_cell_of_index(n, j, 1);
    lemma_cell_of_index(n, j, n - 2);
    lemma_cell_of_index(n, j, n - 1);
    lemma_corners_keep_the_rest(n, h, index_spec(n, 0, j));
    lemma_corners_keep_the_rest(n, h, index_spec(n, 1, j));
    lemma_corners_keep_the_rest(n, h, index_spec(n, n - 2, j));
    lemma_corners_keep_the_rest(n, h, index_spec(n, n - 1, j));
    lemma_corners_keep_the_rest(n, h, index_spec(n, j, 0));
    lemma_corners_keep_the_rest(n, h, index_spec(n, j, 1));
    lemma_corners_keep_the_rest(n, h, index_spec(n, j, n - 2));
    lemma_corners_keep_the_rest(n, h, index_spec(n, j, n - 1));
}

/// On a grid with an interior, what the enforcer makes of a field depends
/// on the interior alone.
pub proof fn lemma_enforce_reads_interior(kind: FieldKind, n: int, f: Seq<int>, g: Seq<int>)
    requires
        n >= 3,
        f.len() == n * n,
        g.len() == n * n,
        forall|x: int, y: int|
            is_interior(n, x, y) ==> f[#[trigger] index_spec(n, x, y)] == g[index_spec(n, x, y)],
    ensures
        enforce_spec(kind, n, f) == enforce_spec(kind, n, g),
{
    let hf = mirror_edges(kind, n, f);
    let hg = mirror_edges(kind, n, g);
    lemma_cell_of_index(n, 0, 0);
    lemma_cell_of_index(n, 1, 0);
    lemma_cell_of_index(n, 0, 1);
    lemma_cell_of_index(n, 0, n - 1);
    lemma_cell_of_index(n, 1, n - 1);
    lemma_cell_of_index(n, 0, n - 2);
    lemma_cell_of_index(n, n - 1, 0);
    lemma_cell_of_index(n, n - 2, 0);
    lemma_cell_of_index(n, n - 1, 1);
    lemma_cell_of_index(n, n - 1, n - 1);
    lemma_cell_of_index(n, n - 2, n - 1);
    lemma_cell_of_index(n, n - 1, n - 2);
    assert forall|k: int| 0 <= k < n * n && !is_corner(n, col_spec(n, k), row_spec(n, k)) implies (
    #[trigger] hf[k]) == hg[k] by {
        lemma_index_of_cell(n, k);
        let x = col_spec(n, k);
        let y = row_spec(n, k);
        if is_end_edge(n, x, y) {
            assert(is_interior(n, x, 1));
            assert(is_interior(n, x, n - 2));
            lemma_cell_of_index(n, x, 1);
            lemma_cell_of_index(n, x, n - 2);
        } else if is_side_edge(n, x, y) {
            assert(is_interior(n, 1, y));
            assert(is_interior(n, n - 2, y));
            lemma_cell_of_index(n, 1, y);
            lemma_cell_of_index(n, n - 2, y);
        } else {
            assert(is_interior(n, x, y));
        }
    }
    let af = with_corner(n, hf, 0, 0, 1, 0, 0, 1);
    let ag = with_corner(n, hg, 0, 0, 1, 0, 0, 1);
    let bf = with_corner(n, af, 0, n - 1, 1, n - 1, 0, n - 2);
    let bg = with_corner(n, ag, 0, n - 1, 1, n - 1, 0, n - 2);
    let cf = with_corner(n, bf, n - 1, 0, n - 2, 0, n - 1, 1);
    let cg = with_corner(n, bg, n - 1, 0, n - 2, 0, n - 1, 1);
    let df = with_corner(n, cf, n - 1, n - 1, n - 2, n - 1, n - 1, n - 2);
    let dg = with_corner(n, cg, n - 1, n - 1, n - 2, n - 1, n - 1, n - 2);
    assert forall|k: int| 0 <= k < n * n implies (#[trigger] df[k]) == dg[k] by {
        lemma_index_of_cell(n, k);
    }
    assert(df =~= dg);
}

/// The enforcer makes the all-zero field of the all-zero field.
pub proof fn lemma_enforce_zeros(kind: FieldKind, n: int)
    requires
        n >= 1,
    ensures
        enforce_spec(kind, n, zeros(n)) == zeros(n),
{
    let z = zeros(n);
    let h = mirror_edges(kind, n, z);
    assert forall|k: int| 0 <= k < n * n implies (#[trigger] h[k]) == 0 by {
        lemma_index_of_cell(n, k);
        lemma_index_in_bounds(n, col_spec(n, k), 1);
        lemma_index_in_bounds(n, col_spec(n, k), n - 2);
        lemma_index_in_bounds(n, 1, row_spec(n, k));
        lemma_index_in_bounds(n, n - 2, row_spec(n, k));
    }
    assert(h =~= z);
    assert(corner_value(0, 0) == 0);
    lemma_index_in_bounds(n, 0, 0);
    lemma_index_in_bounds(n, 1, 0);
    lemma_index_in_bounds(n, 0, 1);
    lemma_index_in_bounds(n, 0, n - 1);
    lemma_index_in_bounds(n, 1, n - 1);
    lemma_index_in_bounds(n, 0, n - 2);
    lemma_index_in_bounds(n, n - 1, 0);
    lemma_index_in_bounds(n, n - 2, 0);
    lemma_index_in_bounds(n, n - 1, 1);
    lemma_index_in_bounds(n, n - 1, n - 1);
    lemma_index_in_bounds(n, n - 2, n - 1);
    lemma_index_in_bounds(n, n - 1, n - 2);
    let a = with_corner(n, z, 0, 0, 1, 0, 0, 1);
    assert(a =~= z);
    let b = with_corner(n, a, 0, n - 1, 1, n - 1, 0, n - 2);
    assert(b =~= z);
    let c = with_corner(n, b, n - 1, 0, n - 2, 0, n - 1, 1);
    assert(c =~= z);
    assert(with_corner(n, c, n - 1, n - 1, n - 2, n - 1, n - 1, n - 2) =~= z);
}

/// On a grid with an interior, the enforcer makes no cell larger in
/// magnitude than the largest cell off the edges.
pub proof fn lemma_enforce_bounded(kind: FieldKind, n: int, f: Seq<int>, m: int)
    requires
        n >= 3,
        f.len() == n * n,
        0 <= m <= MAX_RAW,
        forall|x: int, y: int| is_interior(n, x, y) ==> -m <= f[#[trigger] index_spec(n, x, y)] <= m,
    ensures
        bounded_by(enforce_spec(kind, n, f), m),
{
    let h = mirror_edges(kind, n, f);
    assert forall|k: int| 0 <= k < n * n && !is_corner(n, col_spec(n, k), row_spec(n, k)) implies -m
        <= #[trigger] h[k] <= m by {
        lemma_index_of_cell(n, k);
        let x = col_spec(n, k);
        let y = row_spec(n, k);
        if is_end_edge(n, x, y) {
            assert(is_interior(n, x, 1));
            assert(is_interior(n, x, n - 2));
        } else if is_side_edge(n, x, y) {
            assert(is_interior(n, 1, y));
            assert(is_interior(n, n - 2, y));
        } else {
            assert(is_interior(n, x, y));
        }
    }
    lemma_cell_of_index(n, 0, 0);
    lemma_cell_of_index(n, 1, 0);
    lemma_cell_of_index(n, 0, 1);
    lemma_cell_of_index(n, 0, n - 1);
    lemma_cell_of_index(n, 1, n - 1);
    lemma_cell_of_index(n, 0, n - 2);
    lemma_cell_of_index(n, n - 1, 0);
    lemma_cell_of_index(n, n - 2, 0);
    lemma_cell_of_index(n, n - 1, 1);
    lemma_cell_of_index(n, n - 1, n - 1);
    lemma_cell_of_index(n, n - 2, n - 1);
    lemma_cell_of_index(n, n - 1, n - 2);
    let a = with_corner(n, h, 0, 0, 1, 0, 0, 1);
    let b = with_corner(n, a, 0, n - 1, 1, n - 1, 0, n - 2);
    let c = with_corner(n, b, n - 1, 0, n - 2, 0, n - 1, 1);
    let d = with_corner(n, c, n - 1, n - 1, n - 2, n - 1, n - 1, n - 2);
    lemma_corner_bounded(h[index_spec(n, 1, 0)], h[index_spec(n, 0, 1)], m);
    lemma_corner_bounded(a[index_spec(n, 1, n - 1)], a[index_spec(n, 0, n - 2)], m);
    lemma_corner_bounded(b[index_spec(n, n - 2, 0)], b[index_spec(n, n - 1, 1)], m);
    lemma_corner_bounded(c[index_spec(n, n - 2, n - 1)], c[index_spec(n, n - 1, n - 2)], m);
    assert forall|k: int| 0 <= k < d.len() implies -m <= #[trigger] d[k] <= m by {
        lemma_index_of_cell(n, k);
    }
}

/// The enforcer makes no cell larger in magnitude than the largest cell
/// of the field.
pub proof fn lemma_enforce_keeps_bound(kind: FieldKind, n: int, f: Seq<int>, m: int)
    requires
        n >= 1,
        f.len() == n * n,
        0 <= m <= MAX_RAW,
        bounded_by(f, m),
    ensures
        bounded_by(enforce_spec(kind, n, f), m),
{
    let h = mirror_edges(kind, n, f);
    assert forall|k: int| 0 <= k < h.len() implies -m <= #[trigger] h[k] <= m by {
        lemma_index_in_bounds(n, col_spec(n, k), 1);
        lemma_index_in_bounds(n, col_spec(n, k), n - 2);
        lemma_index_in_bounds(n, 1, row_spec(n, k));
        lemma_index_in_bounds(n, n - 2, row_spec(n, k));
    }
    lemma_index_in_bounds(n, 0, 0);
    lemma_index_in_bounds(n, 1, 0);
    lemma_index_in_bounds(n, 0, 1);
    lemma_index_in_bounds(n, 0, n - 1);
    lemma_index_in_bounds(n, 1, n - 1);
    lemma_index_in_bounds(n, 0, n - 2);
    lemma_index_in_bounds(n, n - 1, 0);
    lemma_index_in_bounds(n, n - 2, 0);
    lemma_index_in_bounds(n, n - 1, 1);
    lemma_index_in_bounds(n, n - 1, n - 1);
    lemma_index_in_bounds(n, n - 2, n - 1);
    lemma_index_in_bounds(n, n - 1, n - 2);
    let a = with_corner(n, h, 0, 0, 1, 0, 0, 1);
    lemma_corner_bounded(h[index_spec(n, 1, 0)], h[index_spec(n, 0, 1)], m);
    assert(bounded_by(a, m));
    let b = with_corner(n, a, 0, n - 1, 1, n - 1, 0, n - 2);
    lemma_corner_bounded(a[index_spec(n, 1, n - 1)], a[index_spec(n, 0, n - 2)], m);
    assert(bounded_by(b, m));
    let c = with_corner(n, b, n - 1, 0, n - 2, 0, n - 1, 1);
    lemma_corner_bounded(b[index_spec(n, n - 2, 0)], b[index_spec(n, n - 1, 1)], m);
    assert(bounded_by(c, m));
    lemma_corner_bounded(c[index_spec(n, n - 2, n - 1)], c[index_spec(n, n - 1, n - 2)], m);
}

proof fn lemma_corner_bounded(a: int, b: int, m: int)
    requires
        0 <= m <= MAX_RAW,
        -m <= a <= m,
        -m <= b <= m,
    ensures
        -m <= corner_value(a, b) <= m,
{
    let s = sum_spec(a, b);
    let p = CORNER_WEIGHT_RAW * s;
    lemma_quotient_bounds(p, ONE_RAW as int);
    if p >= 0 {
        assert(p / (ONE_RAW as int) <= m);
    } else {
        assert((-p) / (ONE_RAW as int) <= m);
    }
}

fn reflected(negate: bool, v: Fixed) -> (r: Fixed)
    ensures
        r@ == reflect(negate, v@),
{
    if negate {
        v.neg()
    } else {
        v
    }
}

fn set_corner(field: &mut Field, x: i64, y: i64, ax: i64, ay: i64, bx: i64, by: i64)
    requires
        old(field).wf(),
    ensures
        final(field).wf(),
        final(field).dim() == old(field).dim(),
        final(field)@ == with_corner(
            old(field).dim(),
            old(field)@,
            x as int,
            y as int,
            ax as int,
            ay as int,
            bx as int,
            by as int,
        ),
{
    let a: Fixed = field.get(ax, ay);
    let b: Fixed = field.get(bx, by);
    let weight: Fixed = Fixed::from_raw(CORNER_WEIGHT_RAW);
    field.set(x, y, weight.saturating_mul(a.saturating_add(b)));
}

/// Rewrites the edges and corners of `field` from its interior.
pub fn enforce(kind: FieldKind, field: &mut Field)
    requires
        old(field).wf(),
    ensures
        final(field).wf(),
        final(field).dim() == old(field).dim(),
        final(field)@ == enforce_spec(kind, old(field).dim(), old(field)@),
{
    let n: usize = field.size();
    let last: i64 = n as i64 - 1;
    let ghost m: int = n as int;
    let ghost before: Seq<int> = field@;
    let ends: bool = kind.negates_ends();
    let sides: bool = kind.negates_sides();
    let mut i: i64 = 1;
    while i < last
        invariant
            field.wf(),
            field.dim() == m,
            last == m - 1,
            before.len() == m * m,
            ends == (kind is VelocityY),
            1 <= i,
            i <= last || last < 1,
            forall|k: int|
                0 <= k < m * m ==> (#[trigger] field@[k]) == (if is_end_edge(
                    m,
                    col_spec(m, k),
                    row_spec(m, k),
                ) && col_spec(m, k) < i {
                    edge_value(kind, m, before, col_spec(m, k), row_spec(m, k))
                } else {
                    before[k]
                }),
        decreases last - i,
    {
        let ghost start: Seq<int> = field@;
        let top: Fixed = field.get(i, 1);
        field.set(i, 0, reflected(ends, top));
        let ghost middle: Seq<int> = field@;
        let bottom: Fixed = field.get(i, last - 1);
        field.set(i, last, reflected(ends, bottom));
        proof {
            lemma_cell_of_index(m, i as int, 1);
            lemma_cell_of_index(m, i as int, m - 2);
            lemma_cell_of_index(m, i as int, 0);
            lemma_cell_of_index(m, i as int, m - 1);
            lemma_update_at(m, start, i as int, 0, reflect(ends, top@));
            lemma_update_at(m, middle, i as int, m - 1, reflect(ends, bottom@));
            assert forall|k: int| 0 <= k < m * m implies (#[trigger] field@[k]) == (if is_end_edge(
                m,
                col_spec(m, k),
                row_spec(m, k),
            ) && col_spec(m, k) < i + 1 {
                edge_value(kind, m, before, col_spec(m, k), row_spec(m, k))
            } else {
                before[k]
            }) by {
                assert(field@[k] == middle.update(index_spec(m, i as int, m - 1), reflect(ends, bottom@))[k]);
                assert(middle[k] == start.update(index_spec(m, i as int, 0), reflect(ends, top@))[k]);
            }
        }
        i += 1;
    }
    let mut j: i64 = 1;
    while j < last
        invariant
            field.wf(),
            field.dim() == m,
            last == m - 1,
            before.len() == m * m,
            sides == (kind is VelocityX),
            1 <= j,
            j <= last || last < 1,
            forall|k: int|
                0 <= k < m * m ==> (#[trigger] field@[k]) == (if is_end_edge(
                    m,
                    col_spec(m, k),
                    row_spec(m, k),
                ) || (is_side_edge(m, col_spec(m, k), row_spec(m, k)) && row_spec(m, k) < j) {
                    edge_value(kind, m, before, col_spec(m, k), row_spec(m, k))
                } else {
                    before[k]
                }),
        decreases last - j,
    {
        let ghost start: Seq<int> = field@;
        let left: Fixed = field.get(1, j);
        field.set(0, j, reflected(sides, left));
        let ghost middle: Seq<int> = field@;
        let right: Fixed = field.get(last - 1, j);
        field.set(last, j, reflected(sides, right));
        proof {
            lemma_cell_of_index(m, 1, j as int);
            lemma_cell_of_index(m, m - 2, j as int);
            lemma_cell_of_index(m, 0, j as int);
            lemma_cell_of_index(m, m - 1, j as int);
            lemma_update_at(m, start, 0, j as int, reflect(sides, left@));
            lemma_update_at(m, middle, m - 1, j as int, reflect(sides, right@));
            assert forall|k: int| 0 <= k < m * m implies (#[trigger] field@[k]) == (if is_end_edge(
                m,
                col_spec(m, k),
                row_spec(m, k),
            ) || (is_side_edge(m, col_spec(m, k), row_spec(m, k)) && row_spec(m, k) < j + 1) {
                edge_value(kind, m, before, col_spec(m, k), row_spec(m, k))
            } else {
                before[k]
            }) by {
                assert(field@[k] == middle.update(index_spec(m, m - 1, j as int), reflect(sides, right@))[k]);
                assert(middle[k] == start.update(index_spec(m, 0, j as int), reflect(sides, left@))[k]);
            }
        }
        j += 1;
    }
    proof {
        assert forall|k: int| 0 <= k < m * m implies (#[trigger] field@[k]) == mirror_edges(
            kind,
            m,
            before,
        )[k] by {
            lemma_index_of_cell(m, k);
        }
        assert(field@ =~= mirror_edges(kind, m, before));
    }
    set_corner(field, 0, 0, 1, 0, 0, 1);
    set_corner(field, 0, last, 1, last, 0, last - 1);
    set_corner(field, last, 0, last - 1, 0, last, 1);
    set_corner(field, last, last, last - 1, last, last, last - 1);
}

} // verus!
