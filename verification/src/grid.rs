//! Grid addressing and scalar fields.
//!
//! A field of dimension `n` holds `n * n` cells in one buffer; the cell at
//! column `x` and row `y` lies at offset `x + y * n`. A coordinate outside
//! `0 ..= n - 1` addresses the nearest cell inside.

use vstd::prelude::*;
use crate::fixed::{clamp_spec, representable, Fixed};

verus! {

/// The largest grid dimension: the square of it fits every `usize`.
pub const MAX_GRID_SIZE: usize = 0xffff;

/// Whether `n` is a grid dimension.
pub open spec fn valid_size(n: int) -> bool {
    1 <= n <= MAX_GRID_SIZE
}

/// Offset of the cell that `(x, y)` addresses on a grid of dimension `n`.
pub open spec fn index_spec(n: int, x: int, y: int) -> int {
    clamp_spec(x, 0, n - 1) + clamp_spec(y, 0, n - 1) * n
}

/// Column of the cell at offset `k`.
pub open spec fn col_spec(n: int, k: int) -> int {
    k % n
}

/// Row of the cell at offset `k`.
pub open spec fn row_spec(n: int, k: int) -> int {
    k / n
}

/// Whether `(x, y)` is a cell off the edges.
pub open spec fn is_interior(n: int, x: int, y: int) -> bool {
    1 <= x <= n - 2 && 1 <= y <= n - 2
}

/// Whether a pass over the cells off the edges, row by row, has been at
/// `(x, y)` by the time it stands at column `i` of row `j`.
pub open spec fn visited(n: int, x: int, y: int, j: int, i: int) -> bool {
    is_interior(n, x, y) && (y < j || (y == j && x < i))
}

/// The field that such a pass has made when it stands at column `i` of row
/// `j`: the cells it has been at hold what `target` holds, the others what
/// `before` holds.
pub open spec fn visiting(n: int, before: Seq<int>, target: Seq<int>, j: int, i: int) -> Seq<
    int,
> {
    Seq::new(
        before.len(),
        |k: int|
            if visited(n, col_spec(n, k), row_spec(n, k), j, i) {
                target[k]
            } else {
                before[k]
            },
    )
}

/// Whether `f` holds the cells of a field of dimension `n`.
pub open spec fn valid_cells(n: int, f: Seq<int>) -> bool {
    &&& f.len() == n * n
    &&& forall|k: int| 0 <= k < f.len() ==> representable(#[trigger] f[k])
}

/// Whether no cell of `f` exceeds `m` in magnitude.
pub open spec fn bounded_by(f: Seq<int>, m: int) -> bool {
    forall|k: int| 0 <= k < f.len() ==> -m <= #[trigger] f[k] <= m
}

/// The field of dimension `n` whose cells are all zero.
pub open spec fn zeros(n: int) -> Seq<int> {
    Seq::new((n * n) as nat, |k: int| 0int)
}

/// An offset lies inside the buffer, whatever the coordinates.
pub proof fn lemma_index_in_bounds(n: int, x: int, y: int)
    requires
        n >= 1,
    ensures
        0 <= index_spec(n, x, y) < n * n,
{
    let xc = clamp_spec(x, 0, n - 1);
    let yc = clamp_spec(y, 0, n - 1);
    assert(0 <= yc * n <= (n - 1) * n) by (nonlinear_arith)
        requires
            0 <= yc <= n - 1,
            n >= 1,
    ;
    assert((n - 1) * n == n * n - n) by (nonlinear_arith);
}

/// Addressing a coordinate and addressing its clamped form give the same
/// cell.
pub proof fn lemma_index_clamps(n: int, x: int, y: int)
    requires
        n >= 1,
    ensures
        index_spec(n, x, y) == index_spec(n, clamp_spec(x, 0, n - 1), clamp_spec(y, 0, n - 1)),
        0 <= index_spec(n, x, y) < n * n,
{
    lemma_index_in_bounds(n, x, y);
}

/// The offset of an in-range coordinate has that column and that row.
pub proof fn lemma_cell_of_index(n: int, x: int, y: int)
    requires
        0 <= x < n,
        0 <= y < n,
    ensures
        index_spec(n, x, y) == x + y * n,
        0 <= x + y * n < n * n,
        col_spec(n, x + y * n) == x,
        row_spec(n, x + y * n) == y,
{
    lemma_index_in_bounds(n, x, y);
    vstd::arithmetic::div_mod::lemma_fundamental_div_mod_converse(x + y * n, n, y, x);
    assert(y * n == n * y) by (nonlinear_arith);
}

/// Every offset inside the buffer is the offset of its column and row.
pub proof fn lemma_index_of_cell(n: int, k: int)
    requires
        n >= 1,
        0 <= k < n * n,
    ensures
        0 <= col_spec(n, k) < n,
        0 <= row_spec(n, k) < n,
        index_spec(n, col_spec(n, k), row_spec(n, k)) == k,
        col_spec(n, k) + row_spec(n, k) * n == k,
{
    vstd::arithmetic::div_mod::lemma_fundamental_div_mod(k, n);
    vstd::arithmetic::div_mod::lemma_mod_bound(k, n);
    let q = k / n;
    assert(n * q == q * n) by (nonlinear_arith);
    assert(0 <= q < n) by (nonlinear_arith)
        requires
            n >= 1,
            0 <= k < n * n,
            k == q * n + k % n,
            0 <= k % n < n,
    ;
}

/// Writing the cell at an in-range coordinate changes the cell with that
/// column and row, and no other.
pub proof fn lemma_update_at(n: int, f: Seq<int>, x: int, y: int, v: int)
    requires
        0 <= x < n,
        0 <= y < n,
        f.len() == n * n,
    ensures
        forall|k: int|
            0 <= k < n * n ==> (#[trigger] f.update(index_spec(n, x, y), v)[k]) == (if col_spec(n, k)
                == x && row_spec(n, k) == y {
                v
            } else {
                f[k]
            }),
{
    lemma_cell_of_index(n, x, y);
    assert forall|k: int| 0 <= k < n * n implies (#[trigger] f.update(index_spec(n, x, y), v)[k])
        == (if col_spec(n, k) == x && row_spec(n, k) == y {
        v
    } else {
        f[k]
    }) by {
        lemma_index_of_cell(n, k);
    }
}

/// A pass that has not begun has changed nothing.
pub proof fn lemma_visiting_start(n: int, before: Seq<int>, target: Seq<int>)
    requires
        n >= 1,
        before.len() == n * n,
    ensures
        visiting(n, before, target, 1, 1) == before,
{
    assert forall|k: int| 0 <= k < n * n implies (#[trigger] visiting(n, before, target, 1, 1)[k])
        == before[k] by {
        lemma_index_of_cell(n, k);
    }
    assert(visiting(n, before, target, 1, 1) =~= before);
}

/// Writing to the cell where the pass stands what `target` holds there
/// moves the pass one column on.
pub proof fn lemma_visiting_step(n: int, before: Seq<int>, target: Seq<int>, j: int, i: int)
    requires
        is_interior(n, i, j),
        before.len() == n * n,
    ensures
        visiting(n, before, target, j, i).update(
            index_spec(n, i, j),
            target[index_spec(n, i, j)],
        ) == visiting(n, before, target, j, i + 1),
        visiting(n, before, target, j, i)[index_spec(n, i, j)] == before[index_spec(n, i, j)],
{
    let cur = visiting(n, before, target, j, i);
    let next = cur.update(index_spec(n, i, j), target[index_spec(n, i, j)]);
    lemma_cell_of_index(n, i, j);
    lemma_update_at(n, cur, i, j, target[index_spec(n, i, j)]);
    assert forall|k: int| 0 <= k < n * n implies (#[trigger] next[k]) == visiting(
        n,
        before,
        target,
        j,
        i + 1,
    )[k] by {
        lemma_index_of_cell(n, k);
    }
    assert(next =~= visiting(n, before, target, j, i + 1));
}

/// A pass at the end of a row stands at the start of the next.
pub proof fn lemma_visiting_next_row(n: int, before: Seq<int>, target: Seq<int>, j: int)
    requires
        n >= 1,
        before.len() == n * n,
    ensures
        visiting(n, before, target, j, n - 1) == visiting(n, before, target, j + 1, 1),
{
    assert forall|k: int| 0 <= k < n * n implies (#[trigger] visiting(
        n,
        before,
        target,
        j,
        n - 1,
    )[k]) == visiting(n, before, target, j + 1, 1)[k] by {
        lemma_index_of_cell(n, k);
    }
    assert(visiting(n, before, target, j, n - 1) =~= visiting(n, before, target, j + 1, 1));
}

/// A pass that has left the last row off the edges has made `target`,
/// where `target` holds off the interior what `before` holds.
pub proof fn lemma_visiting_end(n: int, before: Seq<int>, target: Seq<int>, j: int)
    requires
        n >= 1,
        before.len() == n * n,
        target.len() == n * n,
        j >= n - 1,
        forall|k: int|
            0 <= k < n * n && !is_interior(n, col_spec(n, k), row_spec(n, k)) ==> (
            #[trigger] target[k]) == before[k],
    ensures
        visiting(n, before, target, j, 1) == target,
{
    assert forall|k: int| 0 <= k < n * n implies (#[trigger] visiting(n, before, target, j, 1)[k])
        == target[k] by {
        lemma_index_of_cell(n, k);
    }
    assert(visiting(n, before, target, j, 1) =~= target);
}

/// `v` held between two bounds given in either order.
pub fn clamp(v: i64, start: i64, end: i64) -> (r: i64)
    ensures
        r == clamp_spec(v as int, start as int, end as int),
{
    if start <= end {
        if v < start {
            start
        } else if v > end {
            end
        } else {
            v
        }
    } else {
        if v < end {
            end
        } else if v > start {
            start
        } else {
            v
        }
    }
}

/// Offset of the cell that `(x, y)` addresses on a grid of dimension `n`.
/// Each coordinate is clamped into `0 ..= n - 1` on its own.
pub fn index(n: usize, x: i64, y: i64) -> (offset: usize)
    requires
        valid_size(n as int),
    ensures
        offset == index_spec(n as int, x as int, y as int),
        offset < n * n,
{
    let last: i64 = n as i64 - 1;
    let xc: i64 = clamp(x, 0, last);
    let yc: i64 = clamp(y, 0, last);
    proof {
        lemma_index_in_bounds(n as int, x as int, y as int);
        assert(n * n <= 0xffff * 0xffff) by (nonlinear_arith)
            requires
                1 <= n <= 0xffff,
        ;
    }
    xc as usize + yc as usize * n
}

/// A scalar field: one number for each cell of a square grid.
pub struct Field {
    size: usize,
    cells: Vec<Fixed>,
}

impl View for Field {
    type V = Seq<int>;

    closed spec fn view(&self) -> Seq<int> {
        Seq::new(self.cells@.len(), |k: int| self.cells@[k]@)
    }
}

impl Field {
    /// The grid dimension.
    pub closed spec fn dim(&self) -> int {
        self.size as int
    }

    /// Well-formedness: a valid dimension, and one representable number for
    /// each cell.
    pub open spec fn wf(&self) -> bool {
        &&& valid_size(self.dim())
        &&& valid_cells(self.dim(), self@)
    }

    /// The all-zero field of dimension `n`.
    pub fn new(n: usize) -> (field: Field)
        requires
            valid_size(n as int),
        ensures
            field.wf(),
            field.dim() == n,
            field@ == zeros(n as int),
    {
        assert(n * n <= 0xffff * 0xffff) by (nonlinear_arith)
            requires
                1 <= n <= 0xffff,
        ;
        let count: usize = n * n;
        let mut cells: Vec<Fixed> = Vec::new();
        let mut k: usize = 0;
        while k < count
            invariant
                k <= count,
                cells@.len() == k,
                forall|i: int| 0 <= i < k ==> (#[trigger] cells@[i])@ == 0,
            decreases count - k,
        {
            cells.push(Fixed::zero());
            k += 1;
        }
        let field = Field { size: n, cells };
        assert(field@ =~= zeros(n as int));
        field
    }

    /// The grid dimension.
    pub fn size(&self) -> (n: usize)
        ensures
            n == self.dim(),
    {
        self.size
    }

    /// The cell that `(x, y)` addresses.
    pub fn get(&self, x: i64, y: i64) -> (v: Fixed)
        requires
            self.wf(),
        ensures
            v@ == self@[index_spec(self.dim(), x as int, y as int)],
    {
        let k: usize = index(self.size, x, y);
        self.cells[k]
    }

    /// Writes `v` to the cell that `(x, y)` addresses.
    pub fn set(&mut self, x: i64, y: i64, v: Fixed)
        requires
            old(self).wf(),
        ensures
            final(self).wf(),
            final(self).dim() == old(self).dim(),
            final(self)@ == old(self)@.update(
                index_spec(old(self).dim(), x as int, y as int),
                v@,
            ),
    {
        let k: usize = index(self.size, x, y);
        proof {
            use_type_invariant(&v);
        }
        self.cells.set(k, v);
        assert(self@ =~= old(self)@.update(k as int, v@));
    }

    /// The number of cells.
    pub fn len(&self) -> (count: usize)
        requires
            self.wf(),
        ensures
            count == self@.len(),
            count == self.dim() * self.dim(),
    {
        self.cells.len()
    }

    /// The cell at offset `k`.
    pub fn get_at(&self, k: usize) -> (v: Fixed)
        requires
            self.wf(),
            k < self@.len(),
        ensures
            v@ == self@[k as int],
    {
        self.cells[k]
    }

    /// Writes `v` to the cell at offset `k`.
    pub fn set_at(&mut self, k: usize, v: Fixed)
        requires
            old(self).wf(),
            k < old(self)@.len(),
        ensures
            final(self).wf(),
            final(self).dim() == old(self).dim(),
            final(self)@ == old(self)@.update(k as int, v@),
    {
        proof {
            use_type_invariant(&v);
        }
        self.cells.set(k, v);
        assert(self@ =~= old(self)@.update(k as int, v@));
    }

    /// Sets every cell to zero.
    pub fn clear(&mut self)
        requires
            old(self).wf(),
        ensures
            final(self).wf(),
            final(self).dim() == old(self).dim(),
            final(self)@ == zeros(old(self).dim()),
    {
        let count: usize = self.cells.len();
        let mut k: usize = 0;
        while k < count
            invariant
                k <= count,
                self.size == old(self).size,
                self.cells@.len() == count,
                count == old(self).cells@.len(),
                forall|i: int| 0 <= i < k ==> (#[trigger] self.cells@[i])@ == 0,
            decreases count - k,
        {
            self.cells.set(k, Fixed::zero());
            k += 1;
        }
        assert(self@ =~= zeros(old(self).dim()));
    }
}

} // verus!
