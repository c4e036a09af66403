//! The map itself: a lattice of nodes and the number of the training step
//! that comes next.
use vstd::prelude::*;
use crate::bmu::{bmu, spec_bmu};
use crate::grid::{dist_sq, in_grid, is_grid, rows_of, spec_dist_sq, Cell, MAX_SIDE};

verus! {

/// A sequence cut into `rows` rows of `cols` cells: cell `(r, c)` is item
/// `r * cols + c`.
pub open spec fn in_rows<T>(cells: Seq<T>, rows: int, cols: int) -> Seq<Seq<T>> {
    Seq::new(rows as nat, |r: int| Seq::new(cols as nat, |c: int| cells[r * cols + c]))
}

/// The lattice after a training step around `point`: a cell whose squared
/// distance to `point` is below `reach` holds the node that `pulled` has for
/// it, and every other cell holds the node it held before.
pub open spec fn stepped<T>(
    cells: Seq<Seq<T>>,
    point: Cell,
    reach: u64,
    pulled: Seq<Seq<T>>,
) -> Seq<Seq<T>> {
    Seq::new(
        cells.len(),
        |r: int|
            Seq::new(
                cells[r].len(),
                |c: int|
                    if spec_dist_sq((r, c), point) < reach {
                        pulled[r][c]
                    } else {
                        cells[r][c]
                    },
            ),
    )
}

/// A training step is local: a cell whose squared distance to the centre is
/// `reach` or more holds after the step the node it held before.
pub proof fn lemma_step_keeps_far<T>(
    cells: Seq<Seq<T>>,
    point: Cell,
    reach: u64,
    pulled: Seq<Seq<T>>,
    p: Cell,
)
    requires
        in_grid(cells, p),
        spec_dist_sq(p, point) >= reach,
    ensures
        stepped(cells, point, reach, pulled)[p.0][p.1] == cells[p.0][p.1],
{
}

/// A cell whose squared distance to the centre is below `reach` holds after
/// the step the node that was offered for it.
pub proof fn lemma_step_takes_near<T>(
    cells: Seq<Seq<T>>,
    point: Cell,
    reach: u64,
    pulled: Seq<Seq<T>>,
    p: Cell,
)
    requires
        in_grid(cells, p),
        spec_dist_sq(p, point) < reach,
    ensures
        stepped(cells, point, reach, pulled)[p.0][p.1] == pulled[p.0][p.1],
{
}

/// A step with a reach above zero replaces the node of its centre.
pub proof fn lemma_step_takes_centre<T>(
    cells: Seq<Seq<T>>,
    point: Cell,
    reach: u64,
    pulled: Seq<Seq<T>>,
)
    requires
        in_grid(cells, point),
        reach > 0,
    ensures
        stepped(cells, point, reach, pulled)[point.0][point.1] == pulled[point.0][point.1],
{
}

/// A step with a reach of zero changes no node.
pub proof fn lemma_step_without_reach<T>(cells: Seq<Seq<T>>, point: Cell, pulled: Seq<Seq<T>>)
    ensures
        stepped(cells, point, 0, pulled) == cells,
{
    let after = stepped(cells, point, 0, pulled);
    assert forall|r: int| 0 <= r < cells.len() implies #[trigger] after[r] == cells[r] by {
        assert forall|c: int| 0 <= c < cells[r].len() implies #[trigger] after[r][c]
            == cells[r][c] by {
            assert(spec_dist_sq((r, c), point) >= 0) by (nonlinear_arith);
        }
        assert(after[r] =~= cells[r]);
    }
    assert(after =~= cells);
}

/// A step leaves the lattice its shape.
pub proof fn lemma_step_keeps_shape<T>(
    cells: Seq<Seq<T>>,
    point: Cell,
    reach: u64,
    pulled: Seq<Seq<T>>,
    rows: int,
    cols: int,
)
    requires
        is_grid(cells, rows, cols),
    ensures
        is_grid(stepped(cells, point, reach, pulled), rows, cols),
{
}

/// A self-organizing map over nodes of type `T`.
pub struct SOM<T> {
    lattice: Vec<Vec<T>>,
    t: u32,
}

impl<T> SOM<T> {
    /// The nodes of the lattice, row by row.
    pub closed spec fn cells(self) -> Seq<Seq<T>> {
        rows_of(self.lattice)
    }

    /// The number of the training step that comes next, counted from 1.
    pub closed spec fn step(self) -> nat {
        self.t as nat
    }

    /// The number of rows of the lattice.
    pub open spec fn rows(self) -> int {
        self.cells().len() as int
    }

    /// The number of columns of the lattice.
    pub open spec fn cols(self) -> int {
        self.cells()[0].len() as int
    }

    /// What holds of every map: the lattice is a grid with more than two
    /// rows and more than two columns, and steps are counted from 1.
    #[verifier::type_invariant]
    pub open spec fn wf(self) -> bool {
        &&& 2 < self.rows() <= MAX_SIDE
        &&& 2 < self.cols() <= MAX_SIDE
        &&& is_grid(self.cells(), self.rows(), self.cols())
        &&& self.step() >= 1
    }

    /// Builds a map of `size.0` rows and `size.1` columns from its nodes,
    /// given row by row, ready for its first training step.
    pub fn new(size: (usize, usize), cells: Vec<T>) -> (som: Self)
        requires
            2 < size.0 <= MAX_SIDE,
            2 < size.1 <= MAX_SIDE,
            cells@.len() == size.0 * size.1,
        ensures
            som.wf(),
            som.cells() == in_rows(cells@, size.0 as int, size.1 as int),
            som.step() == 1,
    {
        let rows: usize = size.0;
        let cols: usize = size.1;
        let ghost src = cells@;
        let mut lattice: Vec<Vec<T>> = Vec::new();
        let mut row: Vec<T> = Vec::new();
        assert(0 * cols == 0);
        for x in it: cells.into_iter()
            invariant
                it.seq() == src,
                src.len() == rows * cols,
                2 < cols,
                row@.len() < cols,
                lattice@.len() * cols + row@.len() == it.index(),
                forall|r: int|
                    0 <= r < lattice@.len() ==> (#[trigger] lattice@[r])@ == src.subrange(
                        r * cols,
                        (r + 1) * cols,
                    ),
                row@ == src.subrange(lattice@.len() * cols, lattice@.len() * cols + row@.len()),
        {
            let ghost n = lattice@.len() as int;
            let ghost k = row@.len() as int;
            assert((n + 1) * cols == n * cols + cols) by (nonlinear_arith);
            assert(src.subrange(n * cols, n * cols + k).push(x) == src.subrange(
                n * cols,
                n * cols + k + 1,
            ));
            row.push(x);
            if row.len() == cols {
                lattice.push(row);
                row = Vec::new();
            }
        }
        proof {
            let n = lattice@.len() as int;
            let k = row@.len() as int;
            assert(n == rows && k == 0) by (nonlinear_arith)
                requires
                    n * cols + k == rows * cols,
                    0 <= k < cols,
                    0 <= n,
            ;
            assert forall|r: int| 0 <= r < rows implies #[trigger] rows_of(lattice)[r] =~= in_rows(
                src,
                rows as int,
                cols as int,
            )[r] by {
                assert(0 <= r * cols && (r + 1) * cols <= rows * cols && (r + 1) * cols == r * cols
                    + cols) by (nonlinear_arith)
                    requires
                        0 <= r < rows,
                        0 < cols,
                ;
            }
            assert(rows_of(lattice) =~= in_rows(src, rows as int, cols as int));
        }
        SOM { lattice, t: 1 }
    }

    /// The number of rows and the number of columns of the lattice.
    pub fn get_size(&self) -> (size: (usize, usize))
        ensures
            self.wf(),
            size.0 == self.rows(),
            size.1 == self.cols(),
    {
        proof {
            use_type_invariant(self);
        }
        (self.lattice.len(), self.lattice[0].len())
    }

    /// The nodes of the lattice, row by row, to read.
    pub fn get_lattice(&self) -> (lattice: &Vec<Vec<T>>)
        ensures
            self.wf(),
            rows_of(*lattice) == self.cells(),
    {
        proof {
            use_type_invariant(self);
        }
        &self.lattice
    }

    /// The number of the training step that comes next: 1 for a new map, and
    /// one more after each `update`.
    pub fn get_step(&self) -> (t: u32)
        ensures
            self.wf(),
            t == self.step(),
    {
        proof {
            use_type_invariant(self);
        }
        self.t
    }
}

impl<T: Copy> SOM<T> {
    /// One training step. `keys` holds the distance key of every cell, and
    /// the cell that `bmu` finds in it is the centre of the step. Every cell
    /// whose squared distance to the centre is below `reach` takes its node
    /// from `pulled`; the others keep theirs. The step counter goes up by one.
    pub fn update(&mut self, keys: &Vec<Vec<u32>>, reach: u64, pulled: &Vec<Vec<T>>)
        requires
            is_grid(rows_of(*keys), old(self).rows(), old(self).cols()),
            is_grid(rows_of(*pulled), old(self).rows(), old(self).cols()),
            old(self).step() < u32::MAX,
        ensures
            final(self).wf(),
            final(self).rows() == old(self).rows(),
            final(self).cols() == old(self).cols(),
            final(self).step() == old(self).step() + 1,
            final(self).cells() == stepped(
                old(self).cells(),
                spec_bmu(rows_of(*keys)),
                reach,
                rows_of(*pulled),
            ),
            forall|r: int, c: int|
                in_grid(old(self).cells(), (r, c)) && spec_dist_sq(
                    (r, c),
                    spec_bmu(rows_of(*keys)),
                ) >= reach ==> #[trigger] final(self).cells()[r][c] == old(self).cells()[r][c],
    {
        proof {
            use_type_invariant(&*self);
        }
        let point: (usize, usize) = bmu(keys);
        let rows: usize = self.lattice.len();
        let cols: usize = self.lattice[0].len();
        let ghost centre: Cell = (point.0 as int, point.1 as int);
        let ghost before = rows_of(self.lattice);
        let ghost offer = rows_of(*pulled);
        let ghost after = stepped(before, centre, reach, offer);
        let mut next: Vec<Vec<T>> = Vec::with_capacity(rows);
        let mut r: usize = 0;
        while r < rows
            invariant
                r <= rows <= MAX_SIDE,
                cols <= MAX_SIDE,
                point.0 < rows,
                point.1 < cols,
                centre == (point.0 as int, point.1 as int),
                before == rows_of(self.lattice),
                offer == rows_of(*pulled),
                is_grid(before, rows as int, cols as int),
                is_grid(offer, rows as int, cols as int),
                after == stepped(before, centre, reach, offer),
                next@.len() == r,
                forall|i: int| 0 <= i < r ==> (#[trigger] next@[i])@ == after[i],
            decreases rows - r,
        {
            assert(before[r as int].len() == cols);
            assert(offer[r as int].len() == cols);
            let mut row: Vec<T> = Vec::with_capacity(cols);
            let mut c: usize = 0;
            while c < cols
                invariant
                    r < rows <= MAX_SIDE,
                    c <= cols <= MAX_SIDE,
                    point.0 < rows,
                    point.1 < cols,
                    centre == (point.0 as int, point.1 as int),
                    before == rows_of(self.lattice),
                    offer == rows_of(*pulled),
                    before.len() == rows,
                    offer.len() == rows,
                    before[r as int].len() == cols,
                    offer[r as int].len() == cols,
                    after == stepped(before, centre, reach, offer),
                    row@.len() == c,
                    forall|j: int| 0 <= j < c ==> #[trigger] row@[j] == after[r as int][j],
                decreases cols - c,
            {
                let node: T = if dist_sq((r, c), point) < reach {
                    pulled[r][c]
                } else {
                    self.lattice[r][c]
                };
                row.push(node);
                c += 1;
            }
            assert(row@ =~= after[r as int]);
            next.push(row);
            r += 1;
        }
        assert(rows_of(next) =~= after);
        self.lattice = next;
        self.t = self.t + 1;
    }
}

} // verus!
