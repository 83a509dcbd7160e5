use vstd::prelude::*;

use vstd::arithmetic::div_mod::{lemma_fundamental_div_mod, lemma_fundamental_div_mod_converse};

verus! {

/// Cells `a` and `b` of a `dim`-wide row-major grid are distinct and share
/// an edge or a corner.
pub open spec fn adjacent(dim: int, a: int, b: int) -> bool {
    &&& a != b
    &&& -1 <= a / dim - b / dim <= 1
    &&& -1 <= a % dim - b % dim <= 1
}

/// `s` lists, in ascending order, exactly the cells of the `dim` x `dim`
/// grid that are adjacent to `cell`.
pub open spec fn lists_neighbors(dim: int, cell: int, s: Seq<usize>) -> bool {
    &&& forall|i: int, j: int| 0 <= i < j < s.len() ==> s[i] < s[j]
    &&& forall|i: int|
        0 <= i < s.len() ==> #[trigger] s[i] < dim * dim && adjacent(dim, cell, s[i] as int)
    &&& forall|b: int|
        0 <= b < dim * dim && #[trigger] adjacent(dim, cell, b) ==> s.contains(b as usize)
}

/// How many of the rows (or columns) `i - 1`, `i`, `i + 1` lie in [0, dim).
pub open spec fn span(i: int, dim: int) -> int {
    (if i > 0 { 1int } else { 0 }) + 1 + (if i + 1 < dim { 1int } else { 0 })
}

/// A grid coordinate brought into [0, dim).
pub open spec fn clamp_coord(g: int, dim: int) -> int {
    if g < 0 {
        0
    } else if g >= dim {
        dim - 1
    } else {
        g
    }
}

/// The cell that grid coordinates `(x, y)` fall in, clamped at the edges.
pub open spec fn cell_of(dim: int, p: (i64, i64)) -> int {
    clamp_coord(p.1 as int, dim) * dim + clamp_coord(p.0 as int, dim)
}

proof fn lemma_row_below_dim(dim: int, b: int)
    requires
        1 <= dim,
        0 <= b < dim * dim,
    ensures
        0 <= b / dim < dim,
        0 <= b % dim < dim,
        b == (b / dim) * dim + b % dim,
{
    lemma_fundamental_div_mod(b, dim);
    assert(dim * (b / dim) == (b / dim) * dim) by (nonlinear_arith);
    assert(0 <= b / dim < dim) by (nonlinear_arith)
        requires
            1 <= dim,
            0 <= b < dim * dim,
            b == dim * (b / dim) + b % dim,
            0 <= b % dim < dim,
    ;
}

proof fn lemma_cell_in_grid(dim: int, r: int, c: int)
    requires
        0 <= r < dim,
        0 <= c < dim,
    ensures
        0 <= r * dim + c < dim * dim,
        (r * dim + c) / dim == r,
        (r * dim + c) % dim == c,
{
    assert(0 <= r * dim + c < dim * dim) by (nonlinear_arith)
        requires
            0 <= r < dim,
            0 <= c < dim,
    ;
    lemma_fundamental_div_mod_converse(r * dim + c, dim, r, c);
}

/// The cells that share an edge or a corner with `cell`, in ascending
/// order: eight inside the grid, five along an edge, three in a corner.
pub fn neighbor_cells(dim: usize, cell: usize) -> (r: Vec<usize>)
    requires
        1 <= dim,
        dim * dim <= usize::MAX,
        cell < dim * dim,
    ensures
        lists_neighbors(dim as int, cell as int, r@),
        r.len() == span(cell as int / dim as int, dim as int) * span(cell as int % dim as int, dim as int) - 1,
{
    proof {
        lemma_row_below_dim(dim as int, cell as int);
    }
    let row = cell / dim;
    let col = cell % dim;
    let r_lo: usize = if row == 0 { 0 } else { row - 1 };
    let r_hi: usize = if row + 1 < dim { row + 1 } else { row };
    let c_lo: usize = if col == 0 { 0 } else { col - 1 };
    let c_hi: usize = if col + 1 < dim { col + 1 } else { col };
    let mut r: Vec<usize> = Vec::new();
    let mut rr: usize = r_lo;
    while rr <= r_hi
        invariant
            1 <= dim,
            dim * dim <= usize::MAX,
            cell < dim * dim,
            row == cell / dim,
            col == cell % dim,
            cell == row * dim + col,
            row < dim,
            col < dim,
            r_lo == (if row == 0 { 0 } else { row - 1 }),
            r_hi == (if row + 1 < dim { row + 1 } else { row as int }),
            c_lo == (if col == 0 { 0 } else { col - 1 }),
            c_hi == (if col + 1 < dim { col + 1 } else { col as int }),
            r_lo <= rr <= r_hi + 1,
            r.len() == (rr - r_lo) * (c_hi - c_lo + 1) - (if rr > row { 1int } else { 0 }),
            forall|i: int, j: int| 0 <= i < j < r.len() ==> r@[i] < r@[j],
            forall|i: int| 0 <= i < r.len() ==> r@[i] < rr * dim,
            forall|i: int|
                0 <= i < r.len() ==> #[trigger] r@[i] < dim * dim && adjacent(
                    dim as int,
                    cell as int,
                    r@[i] as int,
                ),
            forall|b: int|
                0 <= b < dim * dim && #[trigger] adjacent(dim as int, cell as int, b) && b / (
                dim as int) < rr ==> r@.contains(b as usize),
        decreases r_hi + 1 - rr,
    {
        let mut cc: usize = c_lo;
        while cc <= c_hi
            invariant
                1 <= dim,
                dim * dim <= usize::MAX,
                cell < dim * dim,
                row == cell / dim,
                col == cell % dim,
                cell == row * dim + col,
                row < dim,
                col < dim,
                r_lo == (if row == 0 { 0 } else { row - 1 }),
                r_hi == (if row + 1 < dim { row + 1 } else { row as int }),
                c_lo == (if col == 0 { 0 } else { col - 1 }),
                c_hi == (if col + 1 < dim { col + 1 } else { col as int }),
                r_lo <= rr <= r_hi,
                c_lo <= cc <= c_hi + 1,
                r.len() == (rr - r_lo) * (c_hi - c_lo + 1) + (cc - c_lo) - (if rr > row || (rr
                    == row && cc > col) { 1int } else { 0 }),
                forall|i: int, j: int| 0 <= i < j < r.len() ==> r@[i] < r@[j],
                forall|i: int| 0 <= i < r.len() ==> r@[i] < rr * dim + cc,
                forall|i: int|
                    0 <= i < r.len() ==> #[trigger] r@[i] < dim * dim && adjacent(
                        dim as int,
                        cell as int,
                        r@[i] as int,
                    ),
                forall|b: int|
                    0 <= b < dim * dim && #[trigger] adjacent(dim as int, cell as int, b) && (b / (
                    dim as int) < rr || (b / (dim as int) == rr && b % (dim as int) < cc))
                        ==> r@.contains(b as usize),
            decreases c_hi + 1 - cc,
        {
            proof {
                lemma_cell_in_grid(dim as int, rr as int, cc as int);
            }
            let ghost before = r@;
            if rr != row || cc != col {
                r.push(rr * dim + cc);
            }
            proof {
                assert forall|x: int|
                    0 <= x < dim * dim && #[trigger] adjacent(dim as int, cell as int, x) && (x / (
                    dim as int) < rr || (x / (dim as int) == rr && x % (dim as int) < cc + 1))
                        implies r@.contains(x as usize) by {
                    lemma_row_below_dim(dim as int, x);
                    if x / (dim as int) == rr && x % (dim as int) == cc {
                        assert(r@[r.len() - 1] == x as usize);
                    } else {
                        let k = choose|k: int| 0 <= k < before.len() && before[k] == x as usize;
                        assert(r@[k] == x as usize);
                    }
                }
            }
            cc = cc + 1;
        }
        proof {
            assert((rr + 1) * dim == rr * dim + dim) by (nonlinear_arith);
            assert((rr + 1 - r_lo) * (c_hi - c_lo + 1) == (rr - r_lo) * (c_hi - c_lo + 1) + (c_hi
                - c_lo + 1)) by (nonlinear_arith);
            assert forall|b: int|
                0 <= b < dim * dim && #[trigger] adjacent(dim as int, cell as int, b) && b / (
                dim as int) < rr + 1 implies r@.contains(b as usize) by {
                lemma_row_below_dim(dim as int, b);
            }
        }
        rr = rr + 1;
    }
    proof {
        assert((r_hi + 1 - r_lo) * (c_hi - c_lo + 1) == span(row as int, dim as int) * span(
            col as int,
            dim as int,
        ));
        assert forall|b: int|
            0 <= b < dim * dim && #[trigger] adjacent(dim as int, cell as int, b) implies r@.contains(
            b as usize,
        ) by {
            lemma_row_below_dim(dim as int, b);
        }
    }
    r
}

/// In a grid at least two cells wide, a cell has eight neighbors in the
/// interior, five along an edge and three in a corner.
pub proof fn lemma_neighbor_counts(dim: int, cell: int)
    requires
        2 <= dim,
        0 <= cell < dim * dim,
    ensures
        ({
            let row_edge = cell / dim == 0 || cell / dim == dim - 1;
            let col_edge = cell % dim == 0 || cell % dim == dim - 1;
            span(cell / dim, dim) * span(cell % dim, dim) - 1 == if row_edge && col_edge {
                3int
            } else if row_edge || col_edge {
                5int
            } else {
                8int
            }
        }),
{
    lemma_row_below_dim(dim, cell);
    let sr = span(cell / dim, dim);
    let sc = span(cell % dim, dim);
    if sr == 2 {
        if sc == 2 {
            assert(sr * sc == 4);
        } else {
            assert(sr * sc == 6);
        }
    } else {
        if sc == 2 {
            assert(sr * sc == 6);
        } else {
            assert(sr * sc == 9);
        }
    }
}

fn clamp_to_grid(g: i64, dim: usize) -> (r: usize)
    requires
        1 <= dim,
    ensures
        r == clamp_coord(g as int, dim as int),
        r < dim,
{
    if g < 0 {
        0
    } else if g as u64 >= dim as u64 {
        dim - 1
    } else {
        g as usize
    }
}

/// The index of the cell that grid coordinates `(gx, gy)` fall in. A
/// coordinate outside [0, dim) is clamped to the nearest edge cell, so the
/// index always lies inside the grid.
pub fn cell_index(dim: usize, gx: i64, gy: i64) -> (r: usize)
    requires
        1 <= dim,
        dim * dim <= usize::MAX,
    ensures
        r == cell_of(dim as int, (gx, gy)),
        r < dim * dim,
{
    let cx = clamp_to_grid(gx, dim);
    let cy = clamp_to_grid(gy, dim);
    proof {
        lemma_cell_in_grid(dim as int, cy as int, cx as int);
    }
    cy * dim + cx
}

/// One square cell of the broad-phase grid.
///
/// The cell covers `[column, column + 1) x [row, row + 1)` in units of the
/// cell size.
#[derive(Debug)]
pub struct GridCell {
    pub column: usize,
    pub row: usize,
    /// Indices into the working collection of the particles placed in this
    /// cell, ascending.
    pub items: Vec<usize>,
    /// The adjacent cells, ascending.
    pub neighbors: Vec<usize>,
}

/// The particles among the first `n` whose coordinates fall in cell `k`,
/// ascending.
pub open spec fn members(dim: int, coords: Seq<(i64, i64)>, k: int, n: nat) -> Seq<usize>
    decreases n,
{
    if n == 0 {
        seq![]
    } else {
        let before = members(dim, coords, k, (n - 1) as nat);
        if cell_of(dim, coords[n - 1]) == k {
            before.push((n - 1) as usize)
        } else {
            before
        }
    }
}

/// `cells` is the `dim` x `dim` grid, in row-major order, over particles
/// whose grid coordinates are `coords`.
pub open spec fn is_grid_of(dim: int, coords: Seq<(i64, i64)>, cells: Seq<GridCell>) -> bool {
    &&& cells.len() == dim * dim
    &&& forall|k: int|
        0 <= k < cells.len() ==> {
            &&& (#[trigger] cells[k]).column == k % dim
            &&& cells[k].row == k / dim
            &&& lists_neighbors(dim, k, cells[k].neighbors@)
            &&& cells[k].items@ == members(dim, coords, k, coords.len())
        }
}

/// Builds the broad-phase grid of `dim` x `dim` cells. `coords[i]` holds the
/// grid coordinates (column, row) of particle `i`, the floor of its position
/// over the cell size; each particle is placed in the cell they fall in,
/// clamped at the edges.
pub fn get_spatial_grid(dim: usize, coords: &Vec<(i64, i64)>) -> (r: Vec<GridCell>)
    requires
        1 <= dim,
        dim * dim <= usize::MAX,
    ensures
        is_grid_of(dim as int, coords@, r@),
{
    let total = dim * dim;
    let mut grid: Vec<GridCell> = Vec::new();
    let mut k: usize = 0;
    while k < total
        invariant
            1 <= dim,
            total == dim * dim,
            k <= total,
            grid.len() == k,
            forall|j: int|
                0 <= j < k ==> {
                    &&& (#[trigger] grid@[j]).column == j % (dim as int)
                    &&& grid@[j].row == j / (dim as int)
                    &&& lists_neighbors(dim as int, j, grid@[j].neighbors@)
                    &&& grid@[j].items@ == members(dim as int, coords@, j, 0)
                },
        decreases total - k,
    {
        let neighbors = neighbor_cells(dim, k);
        grid.push(GridCell { column: k % dim, row: k / dim, items: Vec::new(), neighbors });
        k = k + 1;
    }
    let mut i: usize = 0;
    while i < coords.len()
        invariant
            1 <= dim,
            total == dim * dim,
            i <= coords.len(),
            grid.len() == total,
            forall|j: int|
                0 <= j < total ==> {
                    &&& (#[trigger] grid@[j]).column == j % (dim as int)
                    &&& grid@[j].row == j / (dim as int)
                    &&& lists_neighbors(dim as int, j, grid@[j].neighbors@)
                    &&& grid@[j].items@ == members(dim as int, coords@, j, i as nat)
                },
        decreases coords.len() - i,
    {
        let (gx, gy) = coords[i];
        let c = cell_index(dim, gx, gy);
        grid[c].items.push(i);
        i = i + 1;
    }
    grid
}

/// The pairs of one cell's items: for each position `y`, the pairs
/// `(items[y], items[z])` for every earlier position `z`, in order.
pub open spec fn cell_pairs(items: Seq<usize>) -> Seq<(usize, usize)>
    decreases items.len(),
{
    if items.len() == 0 {
        seq![]
    } else {
        let y = items.len() - 1;
        cell_pairs(items.drop_last()) + Seq::new(y as nat, |z: int| (items[y], items[z]))
    }
}

/// The pairs of every cell, cell by cell in ascending index order.
pub open spec fn grid_pairs(cells: Seq<GridCell>) -> Seq<(usize, usize)>
    decreases cells.len(),
{
    if cells.len() == 0 {
        seq![]
    } else {
        grid_pairs(cells.drop_last()) + cell_pairs(cells.last().items@)
    }
}

/// The candidate pairs of the narrow phase, in the order it must visit
/// them: cells in ascending index order; within a cell, each item with
/// every item placed before it.
///
/// Only particles that share a cell are paired. Overlaps across a cell
/// boundary are not examined: the neighbor lists are kept for a broader
/// search, which this kernel does not make.
pub fn candidate_pairs(grid: &Vec<GridCell>) -> (r: Vec<(usize, usize)>)
    ensures
        r@ == grid_pairs(grid@),
{
    let mut r: Vec<(usize, usize)> = Vec::new();
    let mut c: usize = 0;
    while c < grid.len()
        invariant
            c <= grid.len(),
            r@ == grid_pairs(grid@.take(c as int)),
        decreases grid.len() - c,
    {
        let items = &grid[c].items;
        let mut y: usize = 0;
        while y < items.len()
            invariant
                c < grid.len(),
                *items == grid@[c as int].items,
                y <= items.len(),
                r@ == grid_pairs(grid@.take(c as int)) + cell_pairs(items@.take(y as int)),
            decreases items.len() - y,
        {
            let mut z: usize = 0;
            while z < y
                invariant
                    y < items.len(),
                    z <= y,
                    r@ == grid_pairs(grid@.take(c as int)) + cell_pairs(items@.take(y as int))
                        + Seq::new(z as nat, |t: int| (items@[y as int], items@[t])),
                decreases y - z,
            {
                r.push((items[y], items[z]));
                z = z + 1;
            }
            proof {
                let s = items@.take(y as int + 1);
                assert(s.drop_last() =~= items@.take(y as int));
                assert(Seq::new(y as nat, |t: int| (s[y as int], s[t])) =~= Seq::new(
                    y as nat,
                    |t: int| (items@[y as int], items@[t]),
                ));
                assert(r@ =~= grid_pairs(grid@.take(c as int)) + cell_pairs(s));
            }
            y = y + 1;
        }
        proof {
            let g = grid@.take(c as int + 1);
            assert(g.drop_last() =~= grid@.take(c as int));
            assert(items@.take(y as int) =~= items@);
        }
        c = c + 1;
    }
    proof {
        assert(grid@.take(c as int) =~= grid@);
    }
    r
}

pub(crate) proof fn lemma_members(dim: int, coords: Seq<(i64, i64)>, k: int, n: nat)
    requires
        n <= coords.len(),
        coords.len() <= usize::MAX,
    ensures
        forall|i: int, j: int|
            0 <= i < j < members(dim, coords, k, n).len() ==> members(dim, coords, k, n)[i]
                < members(dim, coords, k, n)[j],
        forall|i: int|
            0 <= i < members(dim, coords, k, n).len() ==> #[trigger] members(dim, coords, k, n)[i]
                < n && cell_of(dim, coords[members(dim, coords, k, n)[i] as int]) == k,
        forall|i: int|
            0 <= i < n && #[trigger] cell_of(dim, coords[i]) == k ==> members(
                dim,
                coords,
                k,
                n,
            ).contains(i as usize),
    decreases n,
{
    if n > 0 {
        let before = members(dim, coords, k, (n - 1) as nat);
        lemma_members(dim, coords, k, (n - 1) as nat);
        let m = members(dim, coords, k, n);
        assert forall|i: int| 0 <= i < n && #[trigger] cell_of(dim, coords[i]) == k implies m.contains(
            i as usize,
        ) by {
            if i == n - 1 {
                assert(m[m.len() - 1] == i as usize);
            } else {
                let t = choose|t: int| 0 <= t < before.len() && before[t] == i as usize;
                assert(m[t] == i as usize);
            }
        }
    }
}

proof fn lemma_cell_of_in_grid(dim: int, p: (i64, i64))
    requires
        1 <= dim,
    ensures
        0 <= cell_of(dim, p) < dim * dim,
{
    lemma_cell_in_grid(dim, clamp_coord(p.1 as int, dim), clamp_coord(p.0 as int, dim));
}

/// Each particle lies in exactly one cell of the grid: the one that its
/// clamped grid coordinates name.
pub proof fn lemma_each_particle_in_one_cell(
    dim: int,
    coords: Seq<(i64, i64)>,
    cells: Seq<GridCell>,
    i: int,
)
    requires
        1 <= dim,
        coords.len() <= usize::MAX,
        is_grid_of(dim, coords, cells),
        0 <= i < coords.len(),
    ensures
        0 <= cell_of(dim, coords[i]) < cells.len(),
        forall|k: int|
            0 <= k < cells.len() ==> ((#[trigger] cells[k]).items@.contains(i as usize) <==> k
                == cell_of(dim, coords[i])),
{
    lemma_cell_of_in_grid(dim, coords[i]);
    assert forall|k: int| 0 <= k < cells.len() implies ((#[trigger] cells[k]).items@.contains(
        i as usize,
    ) <==> k == cell_of(dim, coords[i])) by {
        lemma_members(dim, coords, k, coords.len());
        let m = members(dim, coords, k, coords.len());
        if m.contains(i as usize) {
            let t = choose|t: int| 0 <= t < m.len() && m[t] == i as usize;
            assert(m[t] < coords.len());
        }
    }
}

proof fn lemma_cell_pairs_from(items: Seq<usize>, p: (usize, usize))
    requires
        cell_pairs(items).contains(p),
    ensures
        exists|y: int, z: int| 0 <= z < y < items.len() && p == (items[y], items[z]),
    decreases items.len(),
{
    let y = items.len() - 1;
    let left = cell_pairs(items.drop_last());
    let idx = choose|idx: int| 0 <= idx < cell_pairs(items).len() && cell_pairs(items)[idx] == p;
    if idx < left.len() {
        assert(left[idx] == p);
        lemma_cell_pairs_from(items.drop_last(), p);
        let (y1, z1) = choose|y1: int, z1: int|
            0 <= z1 < y1 < items.drop_last().len() && p == (items.drop_last()[y1], items.drop_last()[z1]);
        assert(p == (items[y1], items[z1]));
    } else {
        let z = idx - left.len();
        assert(p == (items[y], items[z]));
    }
}

proof fn lemma_cell_pairs_to(items: Seq<usize>, y: int, z: int)
    requires
        0 <= z < y < items.len(),
    ensures
        cell_pairs(items).contains((items[y], items[z])),
    decreases items.len(),
{
    let last = items.len() - 1;
    let left = cell_pairs(items.drop_last());
    let whole = cell_pairs(items);
    if y == last {
        assert(whole[left.len() + z] == (items[y], items[z]));
    } else {
        lemma_cell_pairs_to(items.drop_last(), y, z);
        let t = choose|t: int| 0 <= t < left.len() && left[t] == (items[y], items[z]);
        assert(whole[t] == (items[y], items[z]));
    }
}

proof fn lemma_grid_pairs_from(cells: Seq<GridCell>, p: (usize, usize))
    requires
        grid_pairs(cells).contains(p),
    ensures
        exists|k: int| 0 <= k < cells.len() && cell_pairs((#[trigger] cells[k]).items@).contains(p),
    decreases cells.len(),
{
    let left = grid_pairs(cells.drop_last());
    let whole = grid_pairs(cells);
    let idx = choose|idx: int| 0 <= idx < whole.len() && whole[idx] == p;
    let k = cells.len() - 1;
    if idx < left.len() {
        assert(left[idx] == p);
        lemma_grid_pairs_from(cells.drop_last(), p);
        let k1 = choose|k1: int|
            0 <= k1 < cells.drop_last().len() && cell_pairs(
                (#[trigger] cells.drop_last()[k1]).items@,
            ).contains(p);
        assert(cells[k1] == cells.drop_last()[k1]);
    } else {
        assert(cell_pairs(cells[k].items@)[idx - left.len()] == p);
    }
}

proof fn lemma_grid_pairs_to(cells: Seq<GridCell>, k: int, p: (usize, usize))
    requires
        0 <= k < cells.len(),
        cell_pairs(cells[k].items@).contains(p),
    ensures
        grid_pairs(cells).contains(p),
    decreases cells.len(),
{
    let left = grid_pairs(cells.drop_last());
    let whole = grid_pairs(cells);
    let right = cell_pairs(cells[k].items@);
    if k == cells.len() - 1 {
        let t = choose|t: int| 0 <= t < right.len() && right[t] == p;
        assert(whole[left.len() + t] == p);
    } else {
        assert(cells.drop_last()[k] == cells[k]);
        lemma_grid_pairs_to(cells.drop_last(), k, p);
        let t = choose|t: int| 0 <= t < left.len() && left[t] == p;
        assert(whole[t] == p);
    }
}

/// The candidate pairs are exactly the pairs of distinct particles that
/// share a cell, each named with the later particle first.
pub proof fn lemma_candidate_pairs_share_a_cell(
    dim: int,
    coords: Seq<(i64, i64)>,
    cells: Seq<GridCell>,
)
    requires
        1 <= dim,
        coords.len() <= usize::MAX,
        is_grid_of(dim, coords, cells),
    ensures
        forall|p: (usize, usize)|
            #[trigger] grid_pairs(cells).contains(p) ==> p.1 < p.0 < coords.len() && cell_of(
                dim,
                coords[p.0 as int],
            ) == cell_of(dim, coords[p.1 as int]),
        forall|a: int, b: int|
            0 <= b < a < coords.len() && cell_of(dim, coords[a]) == cell_of(dim, coords[b])
                ==> #[trigger] grid_pairs(cells).contains((a as usize, b as usize)),
{
    assert forall|p: (usize, usize)| #[trigger] grid_pairs(cells).contains(p) implies p.1 < p.0
        < coords.len() && cell_of(dim, coords[p.0 as int]) == cell_of(dim, coords[p.1 as int]) by {
        lemma_grid_pairs_from(cells, p);
        let k = choose|k: int|
            0 <= k < cells.len() && cell_pairs((#[trigger] cells[k]).items@).contains(p);
        let items = cells[k].items@;
        lemma_cell_pairs_from(items, p);
        let (y, z) = choose|y: int, z: int| 0 <= z < y < items.len() && p == (items[y], items[z]);
        lemma_members(dim, coords, k, coords.len());
        assert(items[y] < coords.len());
        assert(items[z] < coords.len());
    }
    assert forall|a: int, b: int|
        0 <= b < a < coords.len() && cell_of(dim, coords[a]) == cell_of(
            dim,
            coords[b],
        ) implies #[trigger] grid_pairs(cells).contains((a as usize, b as usize)) by {
        let k = cell_of(dim, coords[a]);
        lemma_cell_of_in_grid(dim, coords[a]);
        lemma_members(dim, coords, k, coords.len());
        let items = cells[k].items@;
        assert(items.contains(a as usize));
        assert(items.contains(b as usize));
        let ya = choose|ya: int| 0 <= ya < items.len() && items[ya] == a as usize;
        let yb = choose|yb: int| 0 <= yb < items.len() && items[yb] == b as usize;
        if ya <= yb {
            assert(items[ya] <= items[yb]);
        }
        lemma_cell_pairs_to(items, ya, yb);
        lemma_grid_pairs_to(cells, k, (a as usize, b as usize));
    }
}

} // verus!
