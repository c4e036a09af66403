//! The search for the best-matching unit: the cell of a grid that is nearest
//! to a sample, given the distance of every cell as an integer key.
//!
//! A key is the bit pattern of a distance in IEEE 754 single precision. A
//! distance is never negative, and among the patterns of such numbers the
//! smaller pattern is the smaller number. The patterns from `FAR` on are
//! those of infinity and of what is not a number.
use vstd::prelude::*;
use crate::grid::{before, in_grid, rows_of, Cell};

verus! {

/// The key of an infinite distance. A cell with this key or a greater one
/// is never the best-matching unit.
pub const FAR: u32 = 0x7f80_0000;

/// Some cell of `keys` has a key below `FAR`.
pub open spec fn has_near(keys: Seq<Seq<u32>>) -> bool {
    exists|q: Cell| in_grid(keys, q) && keys[q.0][q.1] < FAR
}

/// `p` is the best-matching unit of `keys`: its key is below `FAR`, no cell
/// has a smaller key, and every cell that is read before `p` has a greater
/// one.
pub open spec fn is_bmu(keys: Seq<Seq<u32>>, p: Cell) -> bool {
    &&& in_grid(keys, p)
    &&& keys[p.0][p.1] < FAR
    &&& forall|r: int, c: int|
        in_grid(keys, (r, c)) ==> {
            &&& keys[p.0][p.1] <= #[trigger] keys[r][c]
            &&& before((r, c), p) ==> keys[p.0][p.1] < keys[r][c]
        }
}

/// The best-matching unit of `keys`, and `(0, 0)` where no cell has a key
/// below `FAR`.
pub open spec fn spec_bmu(keys: Seq<Seq<u32>>) -> Cell {
    if exists|p: Cell| is_bmu(keys, p) {
        choose|p: Cell| is_bmu(keys, p)
    } else {
        (0, 0)
    }
}

/// A grid has at most one best-matching unit.
pub proof fn lemma_bmu_unique(keys: Seq<Seq<u32>>, p: Cell, q: Cell)
    requires
        is_bmu(keys, p),
        is_bmu(keys, q),
    ensures
        p == q,
{
    assert(keys[p.0][p.1] <= keys[q.0][q.1]);
    assert(keys[q.0][q.1] <= keys[p.0][p.1]);
    assert(!before(p, q));
    assert(!before(q, p));
}

/// A cell that passes for the best-matching unit is the one that `spec_bmu`
/// names.
pub proof fn lemma_bmu_is(keys: Seq<Seq<u32>>, p: Cell)
    requires
        is_bmu(keys, p),
    ensures
        spec_bmu(keys) == p,
{
    lemma_bmu_unique(keys, p, spec_bmu(keys));
}

/// The smallest key of a grid that holds a key of `k` or less.
proof fn lemma_least_key(keys: Seq<Seq<u32>>, k: u32) -> (m: u32)
    requires
        exists|q: Cell| in_grid(keys, q) && keys[q.0][q.1] <= k,
    ensures
        m <= k,
        exists|q: Cell| in_grid(keys, q) && keys[q.0][q.1] == m,
        forall|r: int, c: int| in_grid(keys, (r, c)) ==> m <= #[trigger] keys[r][c],
    decreases k,
{
    if k > 0 && exists|q: Cell| in_grid(keys, q) && keys[q.0][q.1] <= (k - 1) as u32 {
        lemma_least_key(keys, (k - 1) as u32)
    } else {
        let q = choose|q: Cell| in_grid(keys, q) && keys[q.0][q.1] <= k;
        assert forall|r: int, c: int| in_grid(keys, (r, c)) implies k <= #[trigger] keys[r][c] by {
            if keys[r][c] < k {
                assert(in_grid(keys, (r, c)) && keys[r][c] <= (k - 1) as u32);
            }
        }
        assert(in_grid(keys, (q.0, q.1)));
        k
    }
}

/// The first row, among the rows up to `r`, that holds the key `m`.
proof fn lemma_first_row(keys: Seq<Seq<u32>>, m: u32, r: int) -> (first: int)
    requires
        exists|q: Cell| in_grid(keys, q) && q.0 <= r && keys[q.0][q.1] == m,
    ensures
        first <= r,
        exists|c: int| in_grid(keys, (first, c)) && keys[first][c] == m,
        forall|i: int, j: int| in_grid(keys, (i, j)) && i < first ==> #[trigger] keys[i][j] != m,
    decreases r,
{
    let q = choose|q: Cell| in_grid(keys, q) && q.0 <= r && keys[q.0][q.1] == m;
    if exists|q: Cell| in_grid(keys, q) && q.0 <= r - 1 && keys[q.0][q.1] == m {
        lemma_first_row(keys, m, r - 1)
    } else {
        assert forall|i: int, j: int| in_grid(keys, (i, j)) && i < r implies #[trigger] keys[i][j]
            != m by {
            if keys[i][j] == m {
                assert(in_grid(keys, (i, j)) && (i, j).0 <= r - 1);
            }
        }
        assert(in_grid(keys, (r, q.1)));
        r
    }
}

/// The first cell, among the cells of row `r` up to column `c`, that holds
/// the key `m`.
proof fn lemma_first_column(keys: Seq<Seq<u32>>, m: u32, r: int, c: int) -> (first: int)
    requires
        exists|j: int| in_grid(keys, (r, j)) && j <= c && keys[r][j] == m,
    ensures
        in_grid(keys, (r, first)),
        keys[r][first] == m,
        forall|j: int| 0 <= j < first ==> #[trigger] keys[r][j] != m,
    decreases c,
{
    let j0 = choose|j: int| in_grid(keys, (r, j)) && j <= c && keys[r][j] == m;
    if exists|j: int| in_grid(keys, (r, j)) && j <= c - 1 && keys[r][j] == m {
        lemma_first_column(keys, m, r, c - 1)
    } else {
        assert forall|j: int| 0 <= j < c implies #[trigger] keys[r][j] != m by {
            if keys[r][j] == m {
                assert(in_grid(keys, (r, j)) && j <= c - 1);
            }
        }
        c
    }
}

/// Every grid with a key below `FAR` has a best-matching unit, and
/// `spec_bmu` names it.
pub proof fn lemma_bmu_exists(keys: Seq<Seq<u32>>)
    requires
        has_near(keys),
    ensures
        is_bmu(keys, spec_bmu(keys)),
{
    let near = choose|q: Cell| in_grid(keys, q) && keys[q.0][q.1] < FAR;
    let m = lemma_least_key(keys, keys[near.0][near.1]);
    let holder = choose|q: Cell| in_grid(keys, q) && keys[q.0][q.1] == m;
    let r = lemma_first_row(keys, m, holder.0);
    let c0 = choose|c: int| in_grid(keys, (r, c)) && keys[r][c] == m;
    let c = lemma_first_column(keys, m, r, c0);
    assert(is_bmu(keys, (r, c)));
}

/// No cell is nearer than the best-matching unit.
pub proof fn lemma_bmu_is_nearest(keys: Seq<Seq<u32>>, q: Cell)
    requires
        has_near(keys),
        in_grid(keys, q),
    ensures
        keys[spec_bmu(keys).0][spec_bmu(keys).1] <= keys[q.0][q.1],
{
    lemma_bmu_exists(keys);
    assert(in_grid(keys, (q.0, q.1)));
}

/// Of the cells that are as near as the best-matching unit, it is the
/// first: a cell that is read before it is farther.
pub proof fn lemma_bmu_is_first(keys: Seq<Seq<u32>>, q: Cell)
    requires
        has_near(keys),
        in_grid(keys, q),
        before(q, spec_bmu(keys)),
    ensures
        keys[spec_bmu(keys).0][spec_bmu(keys).1] < keys[q.0][q.1],
{
    lemma_bmu_exists(keys);
    assert(in_grid(keys, (q.0, q.1)));
}

/// Without a key below `FAR` the origin stands in for the best-matching
/// unit.
pub proof fn lemma_bmu_without_near(keys: Seq<Seq<u32>>)
    requires
        !has_near(keys),
    ensures
        spec_bmu(keys) == (0int, 0int),
{
    assert forall|p: Cell| !is_bmu(keys, p) by {
        if is_bmu(keys, p) {
            assert(in_grid(keys, p) && keys[p.0][p.1] < FAR);
        }
    }
}

/// Finds the best-matching unit: the cell with the smallest key and, among
/// several such cells, the one that comes first when the grid is read row by
/// row. Rows may differ in length. Where no cell has a key below `FAR`, and
/// so too in a grid without cells, the result is `(0, 0)`.
pub fn bmu(keys: &Vec<Vec<u32>>) -> (p: (usize, usize))
    ensures
        (p.0 as int, p.1 as int) == spec_bmu(rows_of(*keys)),
        has_near(rows_of(*keys)) ==> is_bmu(rows_of(*keys), (p.0 as int, p.1 as int)),
        !has_near(rows_of(*keys)) ==> p == (0usize, 0usize),
{
    let ghost g = rows_of(*keys);
    let mut best: u32 = FAR;
    let mut loc: (usize, usize) = (0, 0);
    let mut r: usize = 0;
    while r < keys.len()
        invariant
            g == rows_of(*keys),
            r <= keys.len(),
            best <= FAR,
            best == FAR ==> loc == (0usize, 0usize),
            best < FAR ==> in_grid(g, (loc.0 as int, loc.1 as int)) && loc.0 < r && best
                == g[loc.0 as int][loc.1 as int],
            forall|i: int, j: int|
                in_grid(g, (i, j)) && i < r ==> {
                    &&& best <= #[trigger] g[i][j]
                    &&& before((i, j), (loc.0 as int, loc.1 as int)) ==> best < g[i][j]
                },
        decreases keys.len() - r,
    {
        let row = &keys[r];
        let mut c: usize = 0;
        while c < row.len()
            invariant
                g == rows_of(*keys),
                r < keys.len(),
                row@ == g[r as int],
                c <= row.len(),
                best <= FAR,
                best == FAR ==> loc == (0usize, 0usize),
                best < FAR ==> in_grid(g, (loc.0 as int, loc.1 as int)) && before(
                    (loc.0 as int, loc.1 as int),
                    (r as int, c as int),
                ) && best == g[loc.0 as int][loc.1 as int],
                forall|i: int, j: int|
                    in_grid(g, (i, j)) && before((i, j), (r as int, c as int)) ==> {
                        &&& best <= #[trigger] g[i][j]
                        &&& before((i, j), (loc.0 as int, loc.1 as int)) ==> best < g[i][j]
                    },
            decreases row.len() - c,
        {
            let key: u32 = row[c];
            if key < best {
                best = key;
                loc = (r, c);
            }
            c += 1;
        }
        r += 1;
    }
    proof {
        if best < FAR {
            lemma_bmu_is(g, (loc.0 as int, loc.1 as int));
        } else {
            assert forall|q: Cell| in_grid(g, q) implies g[q.0][q.1] >= FAR by {
                assert(in_grid(g, (q.0, q.1)));
            }
            lemma_bmu_without_near(g);
        }
    }
    loc
}

} // verus!
