//! Geometry of a rectangular grid: shapes, row-major order and the squared
//! distance between two cells.
use vstd::prelude::*;

verus! {

/// The greatest number of rows, and of columns, of a grid. Within it the
/// squared distance between any two cells fits in a `u64`.
pub const MAX_SIDE: usize = 0x8000_0000;

/// A cell of a grid: its row, then its column.
pub type Cell = (int, int);

/// The contents of a nested vector, row by row.
pub open spec fn rows_of<T>(g: Vec<Vec<T>>) -> Seq<Seq<T>> {
    Seq::new(g@.len(), |r: int| g@[r]@)
}

/// `g` has `rows` rows and each of them has `cols` cells.
pub open spec fn is_grid<T>(g: Seq<Seq<T>>, rows: int, cols: int) -> bool {
    &&& g.len() == rows
    &&& forall|r: int| 0 <= r < rows ==> (#[trigger] g[r]).len() == cols
}

/// `p` is a cell of `g`.
pub open spec fn in_grid<T>(g: Seq<Seq<T>>, p: Cell) -> bool {
    0 <= p.0 < g.len() && 0 <= p.1 < g[p.0].len()
}

/// `p` comes before `q` when the cells are read row by row.
pub open spec fn before(p: Cell, q: Cell) -> bool {
    p.0 < q.0 || (p.0 == q.0 && p.1 < q.1)
}

/// The square of the Euclidean distance between two cells.
pub open spec fn spec_dist_sq(p: Cell, q: Cell) -> int {
    (p.0 - q.0) * (p.0 - q.0) + (p.1 - q.1) * (p.1 - q.1)
}

/// How far apart two coordinates are.
fn span(a: usize, b: usize) -> (d: u64)
    requires
        a <= MAX_SIDE,
        b <= MAX_SIDE,
    ensures
        d == if a <= b { b - a } else { a - b },
        d <= MAX_SIDE,
{
    if a <= b {
        (b - a) as u64
    } else {
        (a - b) as u64
    }
}

/// The square of the Euclidean distance between the cells `p` and `q`.
pub fn dist_sq(p: (usize, usize), q: (usize, usize)) -> (d: u64)
    requires
        p.0 <= MAX_SIDE,
        p.1 <= MAX_SIDE,
        q.0 <= MAX_SIDE,
        q.1 <= MAX_SIDE,
    ensures
        d == spec_dist_sq((p.0 as int, p.1 as int), (q.0 as int, q.1 as int)),
{
    let dr: u64 = span(p.0, q.0);
    let dc: u64 = span(p.1, q.1);
    assert(dr * dr <= 0x4000_0000_0000_0000 && dr * dr == (p.0 - q.0) * (p.0 - q.0))
        by (nonlinear_arith)
        requires
            dr <= 0x8000_0000,
            dr == p.0 - q.0 || dr == q.0 - p.0,
    ;
    assert(dc * dc <= 0x4000_0000_0000_0000 && dc * dc == (p.1 - q.1) * (p.1 - q.1))
        by (nonlinear_arith)
        requires
            dc <= 0x8000_0000,
            dc == p.1 - q.1 || dc == q.1 - p.1,
    ;
    dr * dr + dc * dc
}

} // verus!
