//! The propagation engine: one combo set and one mask per row and per
//! column, cross-propagation of known cells between the two views, and
//! the fixed-point loop that repeats generation, masking and filtering
//! until the grid is determined, a contradiction appears, or no further
//! deduction is possible.

use vstd::prelude::*;
use rayon::iter::{IndexedParallelIterator, IntoParallelRefIterator, ParallelIterator};
use crate::cells::{views, Cell};
use crate::combos::create_combos;
use crate::lines::{
    all_positive, combos_spec, is_line, lemma_combos_complete, lemma_combos_len,
    lemma_combos_nonempty, lemma_combos_sound, lemma_is_line_min_size, spec_min_size,
};
use crate::masks::{
    clone_line, create_mask, filter_spec, filter_with_mask, lemma_filter_all, lemma_filter_keeps,
    lemma_filter_refine_absorb, lemma_filter_subset, lemma_mask_of_matching,
    lemma_members_match_own_mask, lemma_refines_count, lemma_unknown_count_bounds, line_refines,
    mask_spec, matches_mask, unknown_count,
};

verus! {

/// How a solve ended, with the line or cell that decided it.
#[derive(Clone, Copy, Debug, PartialEq, Eq, Structural)]
pub enum SolveStatus {
    /// Every cell is determined; the grid of the report is the solution.
    Solved,
    /// A row clue cannot fit in the width of the grid.
    InfeasibleRow { row: usize },
    /// A column clue cannot fit in the height of the grid.
    InfeasibleCol { col: usize },
    /// The row view and the column view determined one cell to two
    /// different concrete values.
    Contradiction { row: usize, col: usize },
    /// Filtering left a row without any candidate filling.
    EmptyRowCombos { row: usize },
    /// Filtering left a column without any candidate filling.
    EmptyColCombos { col: usize },
    /// A full iteration changed no mask cell while unknown cells remain:
    /// propagation alone cannot finish this puzzle.
    Stalled,
}

/// The outcome of a solve: the status, how many iterations ran, the row
/// masks when the solve ended, and the row masks after each iteration
/// whose cross-propagation completed.
pub struct SolveReport {
    pub status: SolveStatus,
    pub steps: usize,
    pub grid: Vec<Vec<Cell>>,
    pub snapshots: Vec<Vec<Vec<Cell>>>,
}

/// The clue sequences of a vector of clue vectors.
pub open spec fn clue_views(clues: Seq<Vec<usize>>) -> Seq<Seq<usize>> {
    clues.map_values(|c: Vec<usize>| c@)
}

/// Column `j` of a grid held in row-major order.
pub open spec fn column_of(g: Seq<Seq<Cell>>, j: int) -> Seq<Cell> {
    Seq::new(g.len(), |i: int| g[i][j])
}

/// `g` has `nrows` rows of `ncols` cells each.
pub open spec fn grid_dims(g: Seq<Seq<Cell>>, nrows: int, ncols: int) -> bool {
    &&& g.len() == nrows
    &&& forall|i: int| 0 <= i < nrows ==> (#[trigger] g[i]).len() == ncols
}

/// No cell of `g` is `Unknown`.
pub open spec fn fully_concrete(g: Seq<Seq<Cell>>) -> bool {
    forall|i: int, j: int| 0 <= i < g.len() && 0 <= j < g[i].len()
        ==> #[trigger] g[i][j] != Cell::Unknown
}

/// `g` is a solution of the puzzle: every row realises its row clue and
/// every column realises its column clue.
pub open spec fn solves(g: Seq<Seq<Cell>>, rows: Seq<Seq<usize>>, cols: Seq<Seq<usize>>) -> bool {
    &&& grid_dims(g, rows.len() as int, cols.len() as int)
    &&& forall|i: int| 0 <= i < rows.len() ==> is_line(#[trigger] rows[i], g[i])
    &&& forall|j: int| 0 <= j < cols.len() ==> is_line(#[trigger] cols[j], column_of(g, j))
}

/// Cross-propagation of one cell: a concrete value wins over `Unknown`.
pub open spec fn merged_cell(a: Cell, b: Cell) -> Cell {
    if a == Cell::Unknown {
        b
    } else {
        a
    }
}

/// The two views pin one cell to two different concrete values.
pub open spec fn conflicting(a: Cell, b: Cell) -> bool {
    a != Cell::Unknown && b != Cell::Unknown && a != b
}

/// `b` refines `a` row by row: every concrete cell of `a` is kept in `b`.
pub open spec fn grid_refines(a: Seq<Seq<Cell>>, b: Seq<Seq<Cell>>) -> bool {
    &&& a.len() == b.len()
    &&& forall|i: int| 0 <= i < a.len() ==> line_refines(#[trigger] a[i], b[i])
}

/// How many cells of the whole grid are still `Unknown`.
pub open spec fn grid_unknowns(g: Seq<Seq<Cell>>) -> int
    decreases g.len(),
{
    if g.len() == 0 {
        0
    } else {
        grid_unknowns(g.drop_last()) + unknown_count(g.last())
    }
}

pub proof fn lemma_grid_unknowns_bounds(g: Seq<Seq<Cell>>, ncols: int)
    requires
        forall|i: int| 0 <= i < g.len() ==> (#[trigger] g[i]).len() == ncols,
    ensures
        0 <= grid_unknowns(g) <= g.len() * ncols,
    decreases g.len(),
{
    if g.len() == 0 {
    } else {
        let dl = g.drop_last();
        assert forall|i: int| 0 <= i < dl.len() implies (#[trigger] dl[i]).len() == ncols by {
            assert(dl[i] == g[i]);
        }
        lemma_grid_unknowns_bounds(dl, ncols);
        lemma_unknown_count_bounds(g.last());
        assert((g.len() - 1) * ncols + ncols == g.len() * ncols) by (nonlinear_arith);
    }
}

/// Refinement never raises the number of unknown cells of the grid, and
/// strictly lowers it when some row changed.
pub proof fn lemma_grid_unknowns_refines(a: Seq<Seq<Cell>>, b: Seq<Seq<Cell>>)
    requires
        grid_refines(a, b),
    ensures
        grid_unknowns(b) <= grid_unknowns(a),
        (exists|i: int| 0 <= i < a.len() && #[trigger] a[i] != b[i])
            ==> grid_unknowns(b) < grid_unknowns(a),
    decreases a.len(),
{
    if a.len() == 0 {
    } else {
        let ad = a.drop_last();
        let bd = b.drop_last();
        assert forall|i: int| 0 <= i < ad.len() implies line_refines(#[trigger] ad[i], bd[i]) by {
            assert(ad[i] == a[i] && bd[i] == b[i]);
        }
        lemma_grid_unknowns_refines(ad, bd);
        lemma_refines_count(a.last(), b.last());
        if exists|i: int| 0 <= i < a.len() && #[trigger] a[i] != b[i] {
            let w = choose|i: int| 0 <= i < a.len() && #[trigger] a[i] != b[i];
            if w == a.len() - 1 {
                let la = a.last();
                let lb = b.last();
                assert(exists|j: int|
                    0 <= j < la.len() && la[j] == Cell::Unknown && #[trigger] lb[j]
                        != Cell::Unknown) by {
                    if forall|j: int| 0 <= j < la.len() ==> #[trigger] lb[j] == la[j] {
                        assert(la =~= lb);
                    } else {
                        let v = choose|j: int| 0 <= j < la.len() && #[trigger] lb[j] != la[j];
                        assert(la[v] == Cell::Unknown);
                    }
                }
            } else {
                assert(ad[w] == a[w] && bd[w] == b[w]);
            }
        }
    }
}

pub proof fn lemma_grid_unknowns_nonneg(g: Seq<Seq<Cell>>)
    ensures
        grid_unknowns(g) >= 0,
    decreases g.len(),
{
    if g.len() > 0 {
        lemma_grid_unknowns_nonneg(g.drop_last());
        lemma_unknown_count_bounds(g.last());
    }
}

/// A grid with an unknown cell has a positive unknown count.
pub proof fn lemma_grid_unknowns_pos(g: Seq<Seq<Cell>>)
    requires
        !fully_concrete(g),
    ensures
        grid_unknowns(g) >= 1,
    decreases g.len(),
{
    let (i, j) = choose|i: int, j: int|
        0 <= i < g.len() && 0 <= j < g[i].len() && #[trigger] g[i][j] == Cell::Unknown;
    lemma_grid_unknowns_nonneg(g.drop_last());
    lemma_unknown_count_bounds(g.last());
    if i == g.len() - 1 {
        crate::masks::lemma_unknown_count_pos(g.last(), j);
    } else {
        assert(!fully_concrete(g.drop_last())) by {
            assert(g.drop_last()[i][j] == Cell::Unknown);
        }
        lemma_grid_unknowns_pos(g.drop_last());
    }
}

/// The grid of `nrows` by `ncols` cells, all of them `Unknown`: what the
/// engine knows before its first round.
pub open spec fn blank_grid(nrows: int, ncols: int) -> Seq<Seq<Cell>> {
    Seq::new(nrows as nat, |i: int| Seq::new(ncols as nat, |j: int| Cell::Unknown))
}

/// The certainty mask of row `i` once its candidates are narrowed to
/// those agreeing with the mask grid `g`.
pub open spec fn row_mask_after(
    rows: Seq<Seq<usize>>,
    cols: Seq<Seq<usize>>,
    g: Seq<Seq<Cell>>,
    i: int,
) -> Seq<Cell> {
    mask_spec(filter_spec(combos_spec(rows[i], cols.len() as int), g[i]))
}

/// The certainty mask of column `j` once its candidates are narrowed to
/// those agreeing with column `j` of the mask grid `g`.
pub open spec fn col_mask_after(
    rows: Seq<Seq<usize>>,
    cols: Seq<Seq<usize>>,
    g: Seq<Seq<Cell>>,
    j: int,
) -> Seq<Cell> {
    mask_spec(filter_spec(combos_spec(cols[j], rows.len() as int), column_of(g, j)))
}

/// One full propagation round on the mask grid `g`: per line, the
/// candidates agreeing with `g` are intersected into a mask, and the row
/// and column views merge cell by cell.
pub open spec fn round_spec(
    rows: Seq<Seq<usize>>,
    cols: Seq<Seq<usize>>,
    g: Seq<Seq<Cell>>,
) -> Seq<Seq<Cell>> {
    Seq::new(
        rows.len(),
        |i: int|
            Seq::new(
                cols.len(),
                |j: int|
                    merged_cell(
                        row_mask_after(rows, cols, g, i)[j],
                        col_mask_after(rows, cols, g, j)[i],
                    ),
            ),
    )
}

/// A round on `g` pins some cell to two different concrete values.
pub open spec fn round_conflicts(
    rows: Seq<Seq<usize>>,
    cols: Seq<Seq<usize>>,
    g: Seq<Seq<Cell>>,
) -> bool {
    exists|i: int, j: int|
        0 <= i < rows.len() && 0 <= j < cols.len() && #[trigger] conflicting(
            row_mask_after(rows, cols, g, i)[j],
            col_mask_after(rows, cols, g, j)[i],
        )
}

/// The last grid the engine completed a cross-propagation on: the last
/// snapshot, or the blank grid before any round finished.
pub open spec fn prior_grid(
    snapshots: Seq<Vec<Vec<Cell>>>,
    nrows: int,
    ncols: int,
) -> Seq<Seq<Cell>> {
    if snapshots.len() == 0 {
        blank_grid(nrows, ncols)
    } else {
        views(snapshots.last()@)
    }
}

/// Relies on rayon's `par_iter().map(..).collect::<Vec<_>>()`: an indexed
/// parallel map over a vector collects every closure result at its
/// element's own index, so the output is the elementwise image of the
/// input in order. The closure only calls the verified `create_combos`.
#[verifier::external_body]
fn par_create_combos(clues: &Vec<Vec<usize>>, length: usize) -> (sets: Vec<Vec<Vec<Cell>>>)
    ensures
        sets@.len() == clues@.len(),
        forall|i: int| 0 <= i < clues@.len()
            ==> views(#[trigger] sets@[i]@) == combos_spec(clues@[i]@, length as int),
{
    clues.par_iter().map(|clue| create_combos(clue, length)).collect()
}

/// Relies on rayon's `par_iter().map(..).collect::<Vec<_>>()`, as in
/// `par_create_combos`. The closure only calls the verified `create_mask`,
/// whose preconditions this wrapper repeats.
#[verifier::external_body]
fn par_masks(sets: &Vec<Vec<Vec<Cell>>>) -> (masks: Vec<Vec<Cell>>)
    requires
        forall|i: int| 0 <= i < sets@.len() ==> (#[trigger] sets@[i]@).len() >= 1,
        forall|i: int, k: int| 0 <= i < sets@.len() && 0 <= k < sets@[i]@.len()
            ==> (#[trigger] sets@[i]@[k]@).len() == sets@[i]@[0]@.len(),
    ensures
        masks@.len() == sets@.len(),
        forall|i: int| 0 <= i < sets@.len()
            ==> #[trigger] masks@[i]@ == mask_spec(views(sets@[i]@)),
{
    sets.par_iter().map(|set| create_mask(set)).collect()
}

/// Relies on rayon's `par_iter().zip(..).map(..).collect::<Vec<_>>()`: an
/// indexed zip pairs equal indices, and the ordered collect keeps them.
/// The closure only calls the verified `filter_with_mask`, whose
/// precondition this wrapper repeats.
#[verifier::external_body]
fn par_filter(sets: &Vec<Vec<Vec<Cell>>>, masks: &Vec<Vec<Cell>>) -> (kept: Vec<Vec<Vec<Cell>>>)
    requires
        sets@.len() == masks@.len(),
        forall|i: int, k: int| 0 <= i < sets@.len() && 0 <= k < sets@[i]@.len()
            ==> (#[trigger] sets@[i]@[k]@).len() == masks@[i]@.len(),
    ensures
        kept@.len() == sets@.len(),
        forall|i: int| 0 <= i < sets@.len()
            ==> views(#[trigger] kept@[i]@) == filter_spec(views(sets@[i]@), masks@[i]@),
{
    sets.par_iter().zip(masks.par_iter()).map(|(set, mask)| filter_with_mask(set, mask)).collect()
}

/// One combo set per clue, each for a line of `length` cells, or the
/// first clue whose minimum space exceeds `length`.
fn generate_sets(clues: &Vec<Vec<usize>>, length: usize) -> (result: Result<
    Vec<Vec<Vec<Cell>>>,
    usize,
>)
    ensures
        match result {
            Ok(sets) => {
                &&& sets@.len() == clues@.len()
                &&& forall|i: int| 0 <= i < clues@.len()
                    ==> views(#[trigger] sets@[i]@) == combos_spec(clues@[i]@, length as int)
                &&& forall|i: int| 0 <= i < clues@.len() ==> (#[trigger] sets@[i]@).len() >= 1
                &&& forall|i: int| 0 <= i < clues@.len()
                    ==> spec_min_size(#[trigger] clues@[i]@) <= length
            },
            Err(i) => {
                &&& (i as int) < clues@.len()
                &&& spec_min_size(clues@[i as int]@) > length
                &&& forall|k: int| 0 <= k < i
                    ==> spec_min_size(#[trigger] clues@[k]@) <= length
            },
        },
{
    let sets = par_create_combos(clues, length);
    let mut i: usize = 0;
    while i < sets.len()
        invariant
            0 <= i <= sets@.len(),
            sets@.len() == clues@.len(),
            forall|k: int| 0 <= k < clues@.len()
                ==> views(#[trigger] sets@[k]@) == combos_spec(clues@[k]@, length as int),
            forall|k: int| 0 <= k < i ==> (#[trigger] sets@[k]@).len() >= 1,
            forall|k: int| 0 <= k < i ==> spec_min_size(#[trigger] clues@[k]@) <= length,
        decreases sets@.len() - i,
    {
        if sets[i].len() == 0 {
            proof {
                assert(views(sets@[i as int]@).len() == 0);
                if spec_min_size(clues@[i as int]@) <= length {
                    lemma_combos_nonempty(clues@[i as int]@, length as int);
                }
            }
            return Err(i);
        }
        proof {
            assert(views(sets@[i as int]@).len() >= 1);
            if spec_min_size(clues@[i as int]@) > length {
                assert(combos_spec(clues@[i as int]@, length as int).len() == 0);
            }
        }
        i = i + 1;
    }
    Ok(sets)
}

/// Cross-propagation, seen from one of the two views: cell `(i, j)` of
/// the result is the merge of `prim`'s cell `(i, j)` with `other`'s cell
/// `(j, i)`, or the first cell the two views pin to different values.
fn merge_view(prim: &Vec<Vec<Cell>>, other: &Vec<Vec<Cell>>) -> (result: Result<
    Vec<Vec<Cell>>,
    (usize, usize),
>)
    requires
        forall|i: int| 0 <= i < prim@.len() ==> (#[trigger] prim@[i]@).len() == other@.len(),
        forall|j: int| 0 <= j < other@.len() ==> (#[trigger] other@[j]@).len() == prim@.len(),
    ensures
        match result {
            Ok(merged) => {
                &&& merged@.len() == prim@.len()
                &&& forall|i: int| 0 <= i < prim@.len()
                    ==> (#[trigger] merged@[i]@).len() == other@.len()
                &&& forall|i: int, j: int| 0 <= i < prim@.len() && 0 <= j < other@.len()
                    ==> #[trigger] merged@[i]@[j] == merged_cell(prim@[i]@[j], other@[j]@[i])
                &&& forall|i: int, j: int| 0 <= i < prim@.len() && 0 <= j < other@.len()
                    ==> !#[trigger] conflicting(prim@[i]@[j], other@[j]@[i])
            },
            Err((i, j)) => {
                &&& (i as int) < prim@.len() && (j as int) < other@.len()
                &&& conflicting(prim@[i as int]@[j as int], other@[j as int]@[i as int])
            },
        },
{
    let nrows = prim.len();
    let ncols = other.len();
    let mut merged: Vec<Vec<Cell>> = Vec::new();
    let mut i: usize = 0;
    while i < nrows
        invariant
            0 <= i <= nrows,
            nrows == prim@.len(),
            ncols == other@.len(),
            forall|r: int| 0 <= r < prim@.len() ==> (#[trigger] prim@[r]@).len() == other@.len(),
            forall|c: int| 0 <= c < other@.len() ==> (#[trigger] other@[c]@).len() == prim@.len(),
            merged@.len() == i,
            forall|r: int| 0 <= r < i ==> (#[trigger] merged@[r]@).len() == ncols,
            forall|r: int, c: int| 0 <= r < i && 0 <= c < ncols
                ==> #[trigger] merged@[r]@[c] == merged_cell(prim@[r]@[c], other@[c]@[r]),
            forall|r: int, c: int| 0 <= r < i && 0 <= c < ncols
                ==> !#[trigger] conflicting(prim@[r]@[c], other@[c]@[r]),
        decreases nrows - i,
    {
        let mut row: Vec<Cell> = Vec::new();
        let mut j: usize = 0;
        while j < ncols
            invariant
                0 <= j <= ncols,
                0 <= i < nrows,
                nrows == prim@.len(),
                ncols == other@.len(),
                forall|r: int| 0 <= r < prim@.len()
                    ==> (#[trigger] prim@[r]@).len() == other@.len(),
                forall|c: int| 0 <= c < other@.len()
                    ==> (#[trigger] other@[c]@).len() == prim@.len(),
                row@.len() == j,
                forall|c: int| 0 <= c < j
                    ==> #[trigger] row@[c] == merged_cell(prim@[i as int]@[c], other@[c]@[i as int]),
                forall|c: int| 0 <= c < j
                    ==> !#[trigger] conflicting(prim@[i as int]@[c], other@[c]@[i as int]),
            decreases ncols - j,
        {
            let a = prim[i][j];
            let b = other[j][i];
            if a != Cell::Unknown && b != Cell::Unknown && a != b {
                return Err((i, j));
            }
            let c = if a != Cell::Unknown {
                a
            } else {
                b
            };
            row.push(c);
            j = j + 1;
        }
        let ghost prev = merged@;
        merged.push(row);
        proof {
            assert forall|r: int, c: int| 0 <= r < i + 1 && 0 <= c < ncols
                implies #[trigger] merged@[r]@[c] == merged_cell(prim@[r]@[c], other@[c]@[r])
                    && !conflicting(prim@[r]@[c], other@[c]@[r]) by {
                assert(merged@[r] == prev.push(row)[r]);
                if r < i {
                    assert(prev.push(row)[r] == prev[r]);
                } else {
                    assert(prev.push(row)[r] == row);
                }
            }
        }
        i = i + 1;
    }
    Ok(merged)
}

/// Whether two mask grids hold exactly the same cells.
fn grids_equal(a: &Vec<Vec<Cell>>, b: &Vec<Vec<Cell>>) -> (r: bool)
    ensures
        r == (views(a@) == views(b@)),
{
    if a.len() != b.len() {
        proof {
            assert(views(a@).len() != views(b@).len());
        }
        return false;
    }
    let mut i: usize = 0;
    while i < a.len()
        invariant
            0 <= i <= a@.len(),
            a@.len() == b@.len(),
            forall|r: int| 0 <= r < i ==> #[trigger] a@[r]@ == b@[r]@,
        decreases a@.len() - i,
    {
        if a[i].len() != b[i].len() {
            proof {
                assert(views(a@)[i as int] == a@[i as int]@);
                assert(views(b@)[i as int] == b@[i as int]@);
            }
            return false;
        }
        let mut j: usize = 0;
        while j < a[i].len()
            invariant
                0 <= j <= a@[i as int]@.len(),
                0 <= i < a@.len(),
                a@.len() == b@.len(),
                a@[i as int]@.len() == b@[i as int]@.len(),
                forall|c: int| 0 <= c < j ==> #[trigger] a@[i as int]@[c] == b@[i as int]@[c],
            decreases a@[i as int]@.len() - j,
        {
            if a[i][j] != b[i][j] {
                proof {
                    assert(views(a@)[i as int] == a@[i as int]@);
                    assert(views(b@)[i as int] == b@[i as int]@);
                }
                return false;
            }
            j = j + 1;
        }
        proof {
            assert(a@[i as int]@ =~= b@[i as int]@);
        }
        i = i + 1;
    }
    proof {
        assert forall|r: int| 0 <= r < a@.len()
            implies views(a@)[r] == views(b@)[r] by {
            assert(views(a@)[r] == a@[r]@);
            assert(views(b@)[r] == b@[r]@);
        }
        assert(views(a@) =~= views(b@));
    }
    true
}

/// Whether every cell of the grid is concrete.
fn all_concrete(g: &Vec<Vec<Cell>>) -> (r: bool)
    ensures
        r == fully_concrete(views(g@)),
{
    let mut i: usize = 0;
    while i < g.len()
        invariant
            0 <= i <= g@.len(),
            forall|r: int, c: int| 0 <= r < i && 0 <= c < g@[r]@.len()
                ==> #[trigger] g@[r]@[c] != Cell::Unknown,
        decreases g@.len() - i,
    {
        let mut j: usize = 0;
        while j < g[i].len()
            invariant
                0 <= j <= g@[i as int]@.len(),
                0 <= i < g@.len(),
                forall|r: int, c: int| 0 <= r < i && 0 <= c < g@[r]@.len()
                    ==> #[trigger] g@[r]@[c] != Cell::Unknown,
                forall|c: int| 0 <= c < j ==> #[trigger] g@[i as int]@[c] != Cell::Unknown,
            decreases g@[i as int]@.len() - j,
        {
            if g[i][j] == Cell::Unknown {
                proof {
                    assert(views(g@)[i as int] == g@[i as int]@);
                }
                return false;
            }
            j = j + 1;
        }
        i = i + 1;
    }
    proof {
        assert forall|r: int, c: int|
            0 <= r < views(g@).len() && 0 <= c < views(g@)[r].len()
            implies #[trigger] views(g@)[r][c] != Cell::Unknown by {
            assert(views(g@)[r] == g@[r]@);
        }
    }
    true
}

/// A fresh copy of a mask grid.
fn clone_grid(g: &Vec<Vec<Cell>>) -> (c: Vec<Vec<Cell>>)
    ensures
        views(c@) == views(g@),
{
    let mut c: Vec<Vec<Cell>> = Vec::new();
    let mut i: usize = 0;
    while i < g.len()
        invariant
            0 <= i <= g@.len(),
            c@.len() == i,
            forall|r: int| 0 <= r < i ==> #[trigger] c@[r]@ == g@[r]@,
        decreases g@.len() - i,
    {
        let row = clone_line(&g[i]);
        let ghost prev = c@;
        c.push(row);
        proof {
            assert forall|r: int| 0 <= r < i + 1 implies #[trigger] c@[r]@ == g@[r]@ by {
                assert(c@[r] == prev.push(row)[r]);
                if r < i {
                    assert(prev.push(row)[r] == prev[r]);
                } else {
                    assert(prev.push(row)[r] == row);
                }
            }
        }
        i = i + 1;
    }
    proof {
        assert forall|r: int| 0 <= r < g@.len() implies views(c@)[r] == views(g@)[r] by {
            assert(views(c@)[r] == c@[r]@);
            assert(views(g@)[r] == g@[r]@);
        }
        assert(views(c@) =~= views(g@));
    }
    c
}

/// A grid of `nrows` rows of `ncols` cells, all `Unknown`.
fn unknown_grid(nrows: usize, ncols: usize) -> (g: Vec<Vec<Cell>>)
    ensures
        grid_dims(views(g@), nrows as int, ncols as int),
        forall|i: int, j: int| 0 <= i < nrows && 0 <= j < ncols
            ==> #[trigger] views(g@)[i][j] == Cell::Unknown,
{
    let mut g: Vec<Vec<Cell>> = Vec::new();
    let mut i: usize = 0;
    while i < nrows
        invariant
            0 <= i <= nrows,
            g@.len() == i,
            forall|r: int| 0 <= r < i ==> (#[trigger] g@[r]@).len() == ncols,
            forall|r: int, c: int| 0 <= r < i && 0 <= c < ncols
                ==> #[trigger] g@[r]@[c] == Cell::Unknown,
        decreases nrows - i,
    {
        let mut row: Vec<Cell> = Vec::new();
        let mut j: usize = 0;
        while j < ncols
            invariant
                0 <= j <= ncols,
                row@.len() == j,
                forall|c: int| 0 <= c < j ==> #[trigger] row@[c] == Cell::Unknown,
            decreases ncols - j,
        {
            row.push(Cell::Unknown);
            j = j + 1;
        }
        let ghost prev = g@;
        g.push(row);
        proof {
            assert forall|r: int| 0 <= r < i + 1 implies (#[trigger] g@[r]@).len() == ncols by {
                assert(g@[r] == prev.push(row)[r]);
                if r < i {
                    assert(prev.push(row)[r] == prev[r]);
                } else {
                    assert(prev.push(row)[r] == row);
                }
            }
            assert forall|r: int, c: int| 0 <= r < i + 1 && 0 <= c < ncols
                implies #[trigger] g@[r]@[c] == Cell::Unknown by {
                assert(g@[r] == prev.push(row)[r]);
                if r < i {
                    assert(prev.push(row)[r] == prev[r]);
                } else {
                    assert(prev.push(row)[r] == row);
                }
            }
        }
        i = i + 1;
    }
    proof {
        assert forall|r: int| 0 <= r < nrows implies (#[trigger] views(g@)[r]).len() == ncols by {
            assert(views(g@)[r] == g@[r]@);
        }
        assert forall|r: int, c: int| 0 <= r < nrows && 0 <= c < ncols
            implies #[trigger] views(g@)[r][c] == Cell::Unknown by {
            assert(views(g@)[r] == g@[r]@);
        }
    }
    g
}

/// One combo set per clue, every member a candidate line of `n` cells
/// realising its clue, and no set empty.
spec fn good_sets(sets: Seq<Vec<Vec<Cell>>>, clues: Seq<Vec<usize>>, n: int) -> bool {
    &&& sets.len() == clues.len()
    &&& forall|i: int| 0 <= i < sets.len() ==> (#[trigger] sets[i]@).len() >= 1
    &&& forall|i: int, k: int| 0 <= i < sets.len() && 0 <= k < sets[i]@.len()
        ==> (#[trigger] sets[i]@[k]@).len() == n && is_line(clues[i]@, sets[i]@[k]@)
}

/// Every candidate of every row set agrees with the concrete cells of
/// that row's mask.
spec fn sets_match_rows(sets: Seq<Vec<Vec<Cell>>>, masks: Seq<Vec<Cell>>) -> bool {
    forall|i: int, k: int| 0 <= i < sets.len() && 0 <= k < sets[i]@.len()
        ==> matches_mask(#[trigger] sets[i]@[k]@, masks[i]@)
}

/// Every candidate of every column set agrees with the concrete cells of
/// that column of the row-major mask grid.
spec fn sets_match_cols(sets: Seq<Vec<Vec<Cell>>>, masks: Seq<Vec<Cell>>) -> bool {
    forall|j: int, k: int| 0 <= j < sets.len() && 0 <= k < sets[j]@.len()
        ==> matches_mask(#[trigger] sets[j]@[k]@, column_of(views(masks), j))
}

/// Every row of the grid is still a candidate of its row set, and every
/// column still a candidate of its column set: the sets never lose a
/// line of `g`.
spec fn solution_admitted(
    g: Seq<Seq<Cell>>,
    row_sets: Seq<Vec<Vec<Cell>>>,
    col_sets: Seq<Vec<Vec<Cell>>>,
) -> bool {
    &&& forall|i: int| 0 <= i < row_sets.len() ==> views(#[trigger] row_sets[i]@).contains(g[i])
    &&& forall|j: int| 0 <= j < col_sets.len()
        ==> views(#[trigger] col_sets[j]@).contains(column_of(g, j))
}

/// A grid whose rows and columns are still candidates of their sets
/// agrees with every raw mask: a concrete mask cell is shared by all
/// candidates, so by the grid's own line too.
proof fn lemma_solution_matches_raw(
    g: Seq<Seq<Cell>>,
    row_sets: Seq<Vec<Vec<Cell>>>,
    col_sets: Seq<Vec<Vec<Cell>>>,
    row_raw: Seq<Vec<Cell>>,
    col_raw: Seq<Vec<Cell>>,
    nrows: int,
    ncols: int,
)
    requires
        solution_admitted(g, row_sets, col_sets),
        g.len() == nrows,
        row_sets.len() == nrows,
        col_sets.len() == ncols,
        row_raw.len() == nrows,
        col_raw.len() == ncols,
        forall|i: int| 0 <= i < nrows ==> (#[trigger] row_sets[i]@).len() >= 1,
        forall|j: int| 0 <= j < ncols ==> (#[trigger] col_sets[j]@).len() >= 1,
        forall|i: int, k: int| 0 <= i < nrows && 0 <= k < row_sets[i]@.len()
            ==> (#[trigger] row_sets[i]@[k]@).len() == ncols,
        forall|j: int, k: int| 0 <= j < ncols && 0 <= k < col_sets[j]@.len()
            ==> (#[trigger] col_sets[j]@[k]@).len() == nrows,
        forall|i: int| 0 <= i < nrows ==> #[trigger] row_raw[i]@ == mask_spec(
            views(row_sets[i]@),
        ),
        forall|j: int| 0 <= j < ncols ==> #[trigger] col_raw[j]@ == mask_spec(
            views(col_sets[j]@),
        ),
    ensures
        forall|i: int| 0 <= i < nrows ==> matches_mask(#[trigger] g[i], row_raw[i]@),
        forall|j: int| 0 <= j < ncols ==> matches_mask(column_of(g, j), #[trigger] col_raw[j]@),
{
    assert forall|i: int| 0 <= i < nrows implies matches_mask(#[trigger] g[i], row_raw[i]@) by {
        let cs = views(row_sets[i]@);
        assert forall|k: int| 0 <= k < cs.len()
            implies (#[trigger] cs[k]).len() == cs[0].len() by {
            assert(cs[k] == row_sets[i]@[k]@);
            assert(cs[0] == row_sets[i]@[0]@);
        }
        lemma_members_match_own_mask(cs);
        assert(views(row_sets[i]@).contains(g[i]));
        let w = choose|k: int| 0 <= k < cs.len() && cs[k] == g[i];
        assert(matches_mask(cs[w], mask_spec(cs)));
    }
    assert forall|j: int| 0 <= j < ncols
        implies matches_mask(column_of(g, j), #[trigger] col_raw[j]@) by {
        let cs = views(col_sets[j]@);
        assert forall|k: int| 0 <= k < cs.len()
            implies (#[trigger] cs[k]).len() == cs[0].len() by {
            assert(cs[k] == col_sets[j]@[k]@);
            assert(cs[0] == col_sets[j]@[0]@);
        }
        lemma_members_match_own_mask(cs);
        assert(views(col_sets[j]@).contains(column_of(g, j)));
        let w = choose|k: int| 0 <= k < cs.len() && cs[k] == column_of(g, j);
        assert(matches_mask(cs[w], mask_spec(cs)));
    }
}

/// Solves a nonogram by constraint propagation alone: candidate lines are
/// generated per row and per column, reduced to certainty masks, the two
/// views exchange their concrete cells, and the shrunken candidate sets
/// repeat the round until the grid is determined (`Solved`), the views
/// disagree or a set empties (a contradiction), or an iteration changes
/// nothing (`Stalled`).
#[verifier::loop_isolation(false)]
#[verifier::rlimit(100)]
pub fn solve_puzzle(rows: &Vec<Vec<usize>>, cols: &Vec<Vec<usize>>) -> (report: SolveReport)
    requires
        forall|i: int| 0 <= i < rows@.len() ==> all_positive(#[trigger] rows@[i]@),
        forall|j: int| 0 <= j < cols@.len() ==> all_positive(#[trigger] cols@[j]@),
        rows@.len() * cols@.len() <= usize::MAX,
    ensures
        report.steps <= rows@.len() * cols@.len() + 1,
        report.status == SolveStatus::Solved ==> solves(
            views(report.grid@),
            clue_views(rows@),
            clue_views(cols@),
        ) && fully_concrete(views(report.grid@)),
        report.status == SolveStatus::Stalled ==> !fully_concrete(views(report.grid@)),
        report.status matches SolveStatus::InfeasibleRow { row } ==> row < rows@.len()
            && spec_min_size(rows@[row as int]@) > cols@.len(),
        report.status matches SolveStatus::InfeasibleCol { col } ==> col < cols@.len()
            && spec_min_size(cols@[col as int]@) > rows@.len(),
        ((exists|i: int| 0 <= i < rows@.len() && spec_min_size(#[trigger] rows@[i]@) > cols@.len())
            || (exists|j: int| 0 <= j < cols@.len() && spec_min_size(#[trigger] cols@[j]@)
            > rows@.len())) <==> ((report.status matches SolveStatus::InfeasibleRow { .. })
            || (report.status matches SolveStatus::InfeasibleCol { .. })),
        report.status matches SolveStatus::Contradiction { row, col } ==> row < rows@.len()
            && col < cols@.len(),
        (report.status matches SolveStatus::Contradiction { .. } || report.status
            matches SolveStatus::EmptyRowCombos { .. } || report.status
            matches SolveStatus::EmptyColCombos { .. } || report.status
            matches SolveStatus::InfeasibleRow { .. } || report.status
            matches SolveStatus::InfeasibleCol { .. }) ==> (forall|g: Seq<Seq<Cell>>|
            !#[trigger] solves(g, clue_views(rows@), clue_views(cols@))),
        rows@.len() >= 1 && cols@.len() >= 1 ==> report.steps <= rows@.len() * cols@.len(),
        report.status == SolveStatus::Stalled ==> round_spec(
            clue_views(rows@),
            clue_views(cols@),
            views(report.grid@),
        ) == views(report.grid@),
        (report.status matches SolveStatus::InfeasibleRow { .. } || report.status
            matches SolveStatus::InfeasibleCol { .. }) ==> report.steps == 0
            && report.snapshots@.len() == 0,
        (report.status == SolveStatus::Solved || report.status == SolveStatus::Stalled
            || report.status matches SolveStatus::EmptyRowCombos { .. } || report.status
            matches SolveStatus::EmptyColCombos { .. }) ==> report.steps
            == report.snapshots@.len() && report.steps >= 1 && views(report.grid@) == views(
            report.snapshots@.last()@,
        ),
        report.status matches SolveStatus::Contradiction { .. } ==> report.steps
            == report.snapshots@.len() + 1 && views(report.grid@) == prior_grid(
            report.snapshots@,
            rows@.len() as int,
            cols@.len() as int,
        ),
        report.status matches SolveStatus::Contradiction { row, col } ==> conflicting(
            row_mask_after(
                clue_views(rows@),
                clue_views(cols@),
                prior_grid(report.snapshots@, rows@.len() as int, cols@.len() as int),
                row as int,
            )[col as int],
            col_mask_after(
                clue_views(rows@),
                clue_views(cols@),
                prior_grid(report.snapshots@, rows@.len() as int, cols@.len() as int),
                col as int,
            )[row as int],
        ),
        report.status matches SolveStatus::EmptyRowCombos { row } ==> row < rows@.len()
            && filter_spec(
            combos_spec(rows@[row as int]@, cols@.len() as int),
            views(report.grid@)[row as int],
        ).len() == 0,
        report.status matches SolveStatus::EmptyColCombos { col } ==> col < cols@.len()
            && filter_spec(
            combos_spec(cols@[col as int]@, rows@.len() as int),
            column_of(views(report.grid@), col as int),
        ).len() == 0,
        report.snapshots@.len() > 0 ==> views(report.snapshots@[0]@) == round_spec(
            clue_views(rows@),
            clue_views(cols@),
            blank_grid(rows@.len() as int, cols@.len() as int),
        ) && !round_conflicts(
            clue_views(rows@),
            clue_views(cols@),
            blank_grid(rows@.len() as int, cols@.len() as int),
        ),
        forall|t: int| 1 <= t < report.snapshots@.len() ==> views(#[trigger] report.snapshots@[t]@)
            == round_spec(clue_views(rows@), clue_views(cols@), views(report.snapshots@[t - 1]@))
            && !round_conflicts(
            clue_views(rows@),
            clue_views(cols@),
            views(report.snapshots@[t - 1]@),
        ),
        forall|t: int| 0 <= t < report.snapshots@.len() - 1 ==> !fully_concrete(
            views(#[trigger] report.snapshots@[t]@),
        ),
        report.snapshots@.len() <= report.steps,
        forall|t: int| 0 <= t < report.snapshots@.len() ==> grid_dims(
            views(#[trigger] report.snapshots@[t]@),
            rows@.len() as int,
            cols@.len() as int,
        ),
        forall|t: int| 1 <= t < report.snapshots@.len() ==> grid_refines(
            views(report.snapshots@[t - 1]@),
            views(#[trigger] report.snapshots@[t]@),
        ),
{
    let nrows = rows.len();
    let ncols = cols.len();
    proof {
        assert(rows@.len() * cols@.len() >= 0) by (nonlinear_arith)
            requires
                rows@.len() >= 0,
                cols@.len() >= 0,
        ;
    }
    let mut row_sets = match generate_sets(rows, ncols) {
        Ok(sets) => sets,
        Err(i) => {
            proof {
                assert forall|g: Seq<Seq<Cell>>|
                    !#[trigger] solves(g, clue_views(rows@), clue_views(cols@)) by {
                    if solves(g, clue_views(rows@), clue_views(cols@)) {
                        assert(clue_views(rows@)[i as int] == rows@[i as int]@);
                        lemma_is_line_min_size(rows@[i as int]@, g[i as int]);
                    }
                }
            }
            return SolveReport {
                status: SolveStatus::InfeasibleRow { row: i },
                steps: 0,
                grid: Vec::new(),
                snapshots: Vec::new(),
            };
        },
    };
    let mut col_sets = match generate_sets(cols, nrows) {
        Ok(sets) => sets,
        Err(j) => {
            proof {
                assert forall|g: Seq<Seq<Cell>>|
                    !#[trigger] solves(g, clue_views(rows@), clue_views(cols@)) by {
                    if solves(g, clue_views(rows@), clue_views(cols@)) {
                        assert(clue_views(cols@)[j as int] == cols@[j as int]@);
                        lemma_is_line_min_size(cols@[j as int]@, column_of(g, j as int));
                    }
                }
            }
            return SolveReport {
                status: SolveStatus::InfeasibleCol { col: j },
                steps: 0,
                grid: Vec::new(),
                snapshots: Vec::new(),
            };
        },
    };
    proof {
        assert forall|i: int, k: int| 0 <= i < row_sets@.len() && 0 <= k < row_sets@[i]@.len()
            implies (#[trigger] row_sets@[i]@[k]@).len() == ncols
                && is_line(rows@[i]@, row_sets@[i]@[k]@) by {
            lemma_combos_len(rows@[i]@, ncols as int);
            lemma_combos_sound(rows@[i]@, ncols as int);
            assert(views(row_sets@[i]@)[k] == row_sets@[i]@[k]@);
        }
        assert forall|j: int, k: int| 0 <= j < col_sets@.len() && 0 <= k < col_sets@[j]@.len()
            implies (#[trigger] col_sets@[j]@[k]@).len() == nrows
                && is_line(cols@[j]@, col_sets@[j]@[k]@) by {
            lemma_combos_len(cols@[j]@, nrows as int);
            lemma_combos_sound(cols@[j]@, nrows as int);
            assert(views(col_sets@[j]@)[k] == col_sets@[j]@[k]@);
        }
    }
    let mut prev = unknown_grid(nrows, ncols);
    let mut snapshots: Vec<Vec<Vec<Cell>>> = Vec::new();
    let mut steps: usize = 0;
    proof {
        lemma_grid_unknowns_bounds(views(prev@), ncols as int);
        assert(views(prev@).len() * ncols == nrows * ncols);
        assert forall|i: int, k: int| 0 <= i < row_sets@.len() && 0 <= k < row_sets@[i]@.len()
            implies matches_mask(#[trigger] row_sets@[i]@[k]@, prev@[i]@) by {
            assert(views(prev@)[i] == prev@[i]@);
            assert forall|c: int| 0 <= c < prev@[i]@.len()
                implies prev@[i]@[c] == Cell::Unknown by {
                assert(views(prev@)[i][c] == Cell::Unknown);
            }
        }
        assert forall|j: int, k: int| 0 <= j < col_sets@.len() && 0 <= k < col_sets@[j]@.len()
            implies matches_mask(#[trigger] col_sets@[j]@[k]@, column_of(views(prev@), j)) by {
            assert forall|c: int| 0 <= c < column_of(views(prev@), j).len()
                implies column_of(views(prev@), j)[c] == Cell::Unknown by {
                assert(column_of(views(prev@), j)[c] == views(prev@)[c][j]);
            }
        }
        assert forall|g: Seq<Seq<Cell>>| #[trigger] solves(g, clue_views(rows@), clue_views(cols@))
            implies solution_admitted(g, row_sets@, col_sets@) by {
            assert forall|i: int| 0 <= i < row_sets@.len()
                implies views(#[trigger] row_sets@[i]@).contains(g[i]) by {
                assert(clue_views(rows@)[i] == rows@[i]@);
                lemma_combos_complete(rows@[i]@, ncols as int, g[i]);
            }
            assert forall|j: int| 0 <= j < col_sets@.len()
                implies views(#[trigger] col_sets@[j]@).contains(column_of(g, j)) by {
                assert(clue_views(cols@)[j] == cols@[j]@);
                lemma_combos_complete(cols@[j]@, nrows as int, column_of(g, j));
            }
        }
        assert(views(prev@) == blank_grid(nrows as int, ncols as int)) by {
            assert forall|i: int| 0 <= i < nrows
                implies views(prev@)[i] == blank_grid(nrows as int, ncols as int)[i] by {
                assert(views(prev@)[i] =~= blank_grid(nrows as int, ncols as int)[i]);
            }
            assert(views(prev@) =~= blank_grid(nrows as int, ncols as int));
        }
        assert forall|i: int| 0 <= i < nrows implies views(#[trigger] row_sets@[i]@) == filter_spec(
            combos_spec(rows@[i]@, ncols as int),
            prev@[i]@,
        ) by {
            lemma_filter_all(views(row_sets@[i]@), prev@[i]@);
        }
        assert forall|j: int| 0 <= j < ncols implies views(#[trigger] col_sets@[j]@) == filter_spec(
            combos_spec(cols@[j]@, nrows as int),
            column_of(views(prev@), j),
        ) by {
            lemma_filter_all(views(col_sets@[j]@), column_of(views(prev@), j));
        }
    }
    loop
        invariant
            good_sets(row_sets@, rows@, ncols as int),
            good_sets(col_sets@, cols@, nrows as int),
            grid_dims(views(prev@), nrows as int, ncols as int),
            sets_match_rows(row_sets@, prev@),
            sets_match_cols(col_sets@, prev@),
            forall|g: Seq<Seq<Cell>>| #[trigger] solves(g, clue_views(rows@), clue_views(cols@))
                ==> solution_admitted(g, row_sets@, col_sets@),
            steps + grid_unknowns(views(prev@)) <= nrows * ncols,
            steps == 0 || !fully_concrete(views(prev@)),
            steps == snapshots@.len(),
            snapshots@.len() > 0 ==> views(snapshots@.last()@) == views(prev@),
            snapshots@.len() == 0 ==> views(prev@) == blank_grid(nrows as int, ncols as int),
            forall|i: int| 0 <= i < nrows ==> views(#[trigger] row_sets@[i]@) == filter_spec(
                combos_spec(rows@[i]@, ncols as int),
                prev@[i]@,
            ),
            forall|j: int| 0 <= j < ncols ==> views(#[trigger] col_sets@[j]@) == filter_spec(
                combos_spec(cols@[j]@, nrows as int),
                column_of(views(prev@), j),
            ),
            snapshots@.len() > 0 ==> views(snapshots@[0]@) == round_spec(
                clue_views(rows@),
                clue_views(cols@),
                blank_grid(nrows as int, ncols as int),
            ) && !round_conflicts(
                clue_views(rows@),
                clue_views(cols@),
                blank_grid(nrows as int, ncols as int),
            ),
            forall|t: int| 1 <= t < snapshots@.len() ==> views(#[trigger] snapshots@[t]@)
                == round_spec(clue_views(rows@), clue_views(cols@), views(snapshots@[t - 1]@))
                && !round_conflicts(clue_views(rows@), clue_views(cols@), views(snapshots@[t - 1]@)),
            forall|t: int| 0 <= t < snapshots@.len() - 1 ==> !fully_concrete(
                views(#[trigger] snapshots@[t]@),
            ),
            forall|t: int| 0 <= t < snapshots@.len() ==> grid_dims(
                views(#[trigger] snapshots@[t]@),
                nrows as int,
                ncols as int,
            ),
            forall|t: int| 1 <= t < snapshots@.len() ==> grid_refines(
                views(snapshots@[t - 1]@),
                views(#[trigger] snapshots@[t]@),
            ),
        decreases grid_unknowns(views(prev@)),
    {
        proof {
            lemma_grid_unknowns_bounds(views(prev@), ncols as int);
            assert(nrows * ncols >= 0) by (nonlinear_arith)
                requires
                    nrows >= 0,
                    ncols >= 0,
            ;
            if steps >= 1 {
                lemma_grid_unknowns_pos(views(prev@));
            }
            if nrows >= 1 && ncols >= 1 {
                assert(nrows * ncols >= 1) by (nonlinear_arith)
                    requires
                        nrows >= 1,
                        ncols >= 1,
                ;
            }
        }
        steps = steps + 1;
        proof {
            assert(steps <= nrows * ncols + 1);
            assert(nrows >= 1 && ncols >= 1 ==> steps <= nrows * ncols);
        }

        // Phase one: each line's certainty mask, rows and columns apart.
        let row_raw = par_masks(&row_sets);
        let col_raw = par_masks(&col_sets);
        proof {
            assert forall|i: int| 0 <= i < row_raw@.len()
                implies (#[trigger] row_raw@[i]@).len() == ncols by {
                assert(views(row_sets@[i]@)[0] == row_sets@[i]@[0]@);
            }
            assert forall|j: int| 0 <= j < col_raw@.len()
                implies (#[trigger] col_raw@[j]@).len() == nrows by {
                assert(views(col_sets@[j]@)[0] == col_sets@[j]@[0]@);
            }
        }

        // The raw masks are exactly the per-line masks of the candidates
        // that agree with the previous grid, and that grid is the last
        // completed cross-propagation.
        proof {
            assert forall|i: int| 0 <= i < nrows implies #[trigger] row_raw@[i]@ == row_mask_after(
                clue_views(rows@),
                clue_views(cols@),
                views(prev@),
                i,
            ) by {
                assert(clue_views(rows@)[i] == rows@[i]@);
                assert(views(prev@)[i] == prev@[i]@);
                assert(views(row_sets@[i]@) == filter_spec(
                    combos_spec(rows@[i]@, ncols as int),
                    prev@[i]@,
                ));
                assert(row_raw@[i]@ == mask_spec(views(row_sets@[i]@)));
            }
            assert forall|j: int| 0 <= j < ncols implies #[trigger] col_raw@[j]@ == col_mask_after(
                clue_views(rows@),
                clue_views(cols@),
                views(prev@),
                j,
            ) by {
                assert(clue_views(cols@)[j] == cols@[j]@);
                assert(views(col_sets@[j]@) == filter_spec(
                    combos_spec(cols@[j]@, nrows as int),
                    column_of(views(prev@), j),
                ));
                assert(col_raw@[j]@ == mask_spec(views(col_sets@[j]@)));
            }
            assert(views(prev@) == prior_grid(snapshots@, nrows as int, ncols as int));
        }

        // Phase two: cross-propagation, the barrier where the two views
        // exchange what they know, cell by cell.
        let merged_rows = match merge_view(&row_raw, &col_raw) {
            Ok(m) => m,
            Err((i, j)) => {
                proof {
                    assert forall|g: Seq<Seq<Cell>>|
                        !#[trigger] solves(g, clue_views(rows@), clue_views(cols@)) by {
                        if solves(g, clue_views(rows@), clue_views(cols@)) {
                            lemma_solution_matches_raw(
                                g,
                                row_sets@,
                                col_sets@,
                                row_raw@,
                                col_raw@,
                                nrows as int,
                                ncols as int,
                            );
                            assert(g[i as int][j as int] == row_raw@[i as int]@[j as int]);
                            assert(column_of(g, j as int)[i as int] == col_raw@[j as int]@[
                                i as int]);
                        }
                    }
                    assert(conflicting(
                        row_mask_after(
                            clue_views(rows@),
                            clue_views(cols@),
                            prior_grid(snapshots@, nrows as int, ncols as int),
                            i as int,
                        )[j as int],
                        col_mask_after(
                            clue_views(rows@),
                            clue_views(cols@),
                            prior_grid(snapshots@, nrows as int, ncols as int),
                            j as int,
                        )[i as int],
                    ));
                }
                return SolveReport {
                    status: SolveStatus::Contradiction { row: i, col: j },
                    steps,
                    grid: prev,
                    snapshots,
                };
            },
        };
        let merged_cols = match merge_view(&col_raw, &row_raw) {
            Ok(m) => m,
            Err((j, i)) => {
                proof {
                    assert forall|g: Seq<Seq<Cell>>|
                        !#[trigger] solves(g, clue_views(rows@), clue_views(cols@)) by {
                        if solves(g, clue_views(rows@), clue_views(cols@)) {
                            lemma_solution_matches_raw(
                                g,
                                row_sets@,
                                col_sets@,
                                row_raw@,
                                col_raw@,
                                nrows as int,
                                ncols as int,
                            );
                            assert(g[i as int][j as int] == row_raw@[i as int]@[j as int]);
                            assert(column_of(g, j as int)[i as int] == col_raw@[j as int]@[
                                i as int]);
                        }
                    }
                    assert(conflicting(
                        row_mask_after(
                            clue_views(rows@),
                            clue_views(cols@),
                            prior_grid(snapshots@, nrows as int, ncols as int),
                            i as int,
                        )[j as int],
                        col_mask_after(
                            clue_views(rows@),
                            clue_views(cols@),
                            prior_grid(snapshots@, nrows as int, ncols as int),
                            j as int,
                        )[i as int],
                    ));
                }
                return SolveReport {
                    status: SolveStatus::Contradiction { row: i, col: j },
                    steps,
                    grid: prev,
                    snapshots,
                };
            },
        };

        // The merged masks keep every cell the previous round had pinned.
        proof {
            assert forall|i: int| 0 <= i < nrows
                implies line_refines(#[trigger] views(prev@)[i], views(merged_rows@)[i]) by {
                let cs = views(row_sets@[i]@);
                assert forall|k: int| 0 <= k < cs.len()
                    implies (#[trigger] cs[k]).len() == cs[0].len()
                        && matches_mask(cs[k], prev@[i]@) by {
                    assert(cs[k] == row_sets@[i]@[k]@);
                    assert(cs[0] == row_sets@[i]@[0]@);
                }
                assert(cs[0] == row_sets@[i]@[0]@);
                assert(views(prev@)[i] == prev@[i]@);
                assert(views(merged_rows@)[i] == merged_rows@[i]@);
                lemma_mask_of_matching(cs, prev@[i]@);
                assert forall|j: int| 0 <= j < ncols && prev@[i]@[j] != Cell::Unknown
                    implies #[trigger] merged_rows@[i]@[j] == prev@[i]@[j] by {
                    assert(row_raw@[i]@ == mask_spec(cs));
                    assert(mask_spec(cs)[j] == prev@[i]@[j]);
                    assert(merged_rows@[i]@[j] == merged_cell(row_raw@[i]@[j], col_raw@[j]@[i]));
                }
            }
            assert(grid_refines(views(prev@), views(merged_rows@)));
        }

        // The column view of the merged grid is the merged column masks.
        proof {
            assert forall|j: int| 0 <= j < ncols
                implies #[trigger] merged_cols@[j]@ == column_of(views(merged_rows@), j) by {
                assert forall|i: int| 0 <= i < nrows
                    implies #[trigger] merged_cols@[j]@[i] == views(merged_rows@)[i][j] by {
                    assert(merged_cols@[j]@[i] == merged_cell(col_raw@[j]@[i], row_raw@[i]@[j]));
                    assert(merged_rows@[i]@[j] == merged_cell(row_raw@[i]@[j], col_raw@[j]@[i]));
                    assert(!conflicting(row_raw@[i]@[j], col_raw@[j]@[i]));
                    assert(views(merged_rows@)[i] == merged_rows@[i]@);
                }
                assert(merged_cols@[j]@ =~= column_of(views(merged_rows@), j));
            }
        }

        // The merged grid is exactly one propagation round on the previous
        // grid, and that round pinned no cell to two different values.
        proof {
            assert forall|i: int| 0 <= i < nrows implies views(merged_rows@)[i] == round_spec(
                clue_views(rows@),
                clue_views(cols@),
                views(prev@),
            )[i] by {
                assert(views(merged_rows@)[i] == merged_rows@[i]@);
                assert forall|j: int| 0 <= j < ncols implies merged_rows@[i]@[j] == round_spec(
                    clue_views(rows@),
                    clue_views(cols@),
                    views(prev@),
                )[i][j] by {
                    assert(merged_rows@[i]@[j] == merged_cell(row_raw@[i]@[j], col_raw@[j]@[i]));
                }
                assert(views(merged_rows@)[i] =~= round_spec(
                    clue_views(rows@),
                    clue_views(cols@),
                    views(prev@),
                )[i]);
            }
            assert(views(merged_rows@) =~= round_spec(
                clue_views(rows@),
                clue_views(cols@),
                views(prev@),
            ));
            assert forall|i: int, j: int| 0 <= i < nrows && 0 <= j < ncols
                implies !#[trigger] conflicting(
                row_mask_after(clue_views(rows@), clue_views(cols@), views(prev@), i)[j],
                col_mask_after(clue_views(rows@), clue_views(cols@), views(prev@), j)[i],
            ) by {
                assert(!conflicting(row_raw@[i]@[j], col_raw@[j]@[i]));
            }
            assert(!round_conflicts(clue_views(rows@), clue_views(cols@), views(prev@)));
        }

        let snap = clone_grid(&merged_rows);
        let ghost old_snapshots = snapshots@;
        snapshots.push(snap);
        proof {
            assert forall|t: int| 0 <= t < snapshots@.len()
                implies grid_dims(views(#[trigger] snapshots@[t]@), nrows as int, ncols as int)
                    && (1 <= t ==> grid_refines(
                    views(snapshots@[t - 1]@),
                    views(snapshots@[t]@),
                )) by {
                assert(snapshots@[t] == old_snapshots.push(snap)[t]);
                if t < old_snapshots.len() {
                    assert(old_snapshots.push(snap)[t] == old_snapshots[t]);
                    if t >= 1 {
                        assert(snapshots@[t - 1] == old_snapshots[t - 1]);
                    }
                } else {
                    assert(old_snapshots.push(snap)[t] == snap);
                    if t >= 1 {
                        assert(snapshots@[t - 1] == old_snapshots[t - 1]);
                        assert(old_snapshots[t - 1] == old_snapshots.last());
                    }
                }
            }
            assert(views(snapshots@[0]@) == round_spec(
                clue_views(rows@),
                clue_views(cols@),
                blank_grid(nrows as int, ncols as int),
            ) && !round_conflicts(
                clue_views(rows@),
                clue_views(cols@),
                blank_grid(nrows as int, ncols as int),
            )) by {
                if old_snapshots.len() == 0 {
                    assert(snapshots@[0] == old_snapshots.push(snap)[0]);
                    assert(old_snapshots.push(snap)[0] == snap);
                    assert(views(prev@) == blank_grid(nrows as int, ncols as int));
                } else {
                    assert(snapshots@[0] == old_snapshots.push(snap)[0]);
                    assert(old_snapshots.push(snap)[0] == old_snapshots[0]);
                }
            }
            assert forall|t: int| 1 <= t < snapshots@.len() implies views(
                #[trigger] snapshots@[t]@,
            ) == round_spec(clue_views(rows@), clue_views(cols@), views(snapshots@[t - 1]@))
                && !round_conflicts(
                clue_views(rows@),
                clue_views(cols@),
                views(snapshots@[t - 1]@),
            ) by {
                assert(snapshots@[t] == old_snapshots.push(snap)[t]);
                assert(snapshots@[t - 1] == old_snapshots.push(snap)[t - 1]);
                if t < old_snapshots.len() {
                    assert(old_snapshots.push(snap)[t] == old_snapshots[t]);
                    assert(old_snapshots.push(snap)[t - 1] == old_snapshots[t - 1]);
                } else {
                    assert(old_snapshots.push(snap)[t] == snap);
                    assert(old_snapshots.push(snap)[t - 1] == old_snapshots[t - 1]);
                    assert(old_snapshots[t - 1] == old_snapshots.last());
                    assert(views(old_snapshots.last()@) == views(prev@));
                }
            }
            assert forall|t: int| 0 <= t < snapshots@.len() - 1 implies !fully_concrete(
                views(#[trigger] snapshots@[t]@),
            ) by {
                assert(snapshots@[t] == old_snapshots.push(snap)[t]);
                assert(old_snapshots.push(snap)[t] == old_snapshots[t]);
                if t == old_snapshots.len() - 1 {
                    assert(old_snapshots[t] == old_snapshots.last());
                    assert(views(old_snapshots.last()@) == views(prev@));
                }
            }
        }

        // Phase three: every line's candidate set shrinks to the members
        // that agree with the merged masks.
        let new_row_sets = par_filter(&row_sets, &merged_rows);
        let new_col_sets = par_filter(&col_sets, &merged_cols);
        proof {
            assert forall|i: int, k: int|
                0 <= i < new_row_sets@.len() && 0 <= k < new_row_sets@[i]@.len()
                implies (#[trigger] new_row_sets@[i]@[k]@).len() == ncols
                    && is_line(rows@[i]@, new_row_sets@[i]@[k]@)
                    && matches_mask(new_row_sets@[i]@[k]@, merged_rows@[i]@) by {
                lemma_filter_subset(views(row_sets@[i]@), merged_rows@[i]@);
                let e = views(new_row_sets@[i]@)[k];
                assert(e == new_row_sets@[i]@[k]@);
                let w = choose|x: int|
                    0 <= x < views(row_sets@[i]@).len() && views(row_sets@[i]@)[x] == e;
                assert(views(row_sets@[i]@)[w] == row_sets@[i]@[w]@);
            }
            assert forall|j: int, k: int|
                0 <= j < new_col_sets@.len() && 0 <= k < new_col_sets@[j]@.len()
                implies (#[trigger] new_col_sets@[j]@[k]@).len() == nrows
                    && is_line(cols@[j]@, new_col_sets@[j]@[k]@)
                    && matches_mask(new_col_sets@[j]@[k]@, merged_cols@[j]@) by {
                lemma_filter_subset(views(col_sets@[j]@), merged_cols@[j]@);
                let e = views(new_col_sets@[j]@)[k];
                assert(e == new_col_sets@[j]@[k]@);
                let w = choose|x: int|
                    0 <= x < views(col_sets@[j]@).len() && views(col_sets@[j]@)[x] == e;
                assert(views(col_sets@[j]@)[w] == col_sets@[j]@[w]@);
            }
        }

        // A grid that solves the puzzle is never filtered away: its lines
        // agree with every concrete cell of the merged masks.
        proof {
            assert forall|g: Seq<Seq<Cell>>|
                #[trigger] solves(g, clue_views(rows@), clue_views(cols@))
                implies solution_admitted(g, new_row_sets@, new_col_sets@) by {
                lemma_solution_matches_raw(
                    g,
                    row_sets@,
                    col_sets@,
                    row_raw@,
                    col_raw@,
                    nrows as int,
                    ncols as int,
                );
                assert forall|i2: int| 0 <= i2 < new_row_sets@.len()
                    implies views(#[trigger] new_row_sets@[i2]@).contains(g[i2]) by {
                    assert(matches_mask(g[i2], merged_rows@[i2]@)) by {
                        assert forall|c: int|
                            0 <= c < ncols && merged_rows@[i2]@[c] != Cell::Unknown
                            implies g[i2][c] == merged_rows@[i2]@[c] by {
                            assert(merged_rows@[i2]@[c] == merged_cell(
                                row_raw@[i2]@[c],
                                col_raw@[c]@[i2],
                            ));
                            if row_raw@[i2]@[c] == Cell::Unknown {
                                assert(column_of(g, c)[i2] == g[i2][c]);
                            }
                        }
                    }
                    lemma_filter_keeps(views(row_sets@[i2]@), merged_rows@[i2]@, g[i2]);
                }
                assert forall|j2: int| 0 <= j2 < new_col_sets@.len()
                    implies views(#[trigger] new_col_sets@[j2]@).contains(column_of(g, j2)) by {
                    assert(matches_mask(column_of(g, j2), merged_cols@[j2]@)) by {
                        assert forall|c: int|
                            0 <= c < nrows && merged_cols@[j2]@[c] != Cell::Unknown
                            implies column_of(g, j2)[c] == merged_cols@[j2]@[c] by {
                            assert(merged_cols@[j2]@[c] == merged_cell(
                                col_raw@[j2]@[c],
                                row_raw@[c]@[j2],
                            ));
                            assert(column_of(g, j2)[c] == g[c][j2]);
                        }
                    }
                    lemma_filter_keeps(views(col_sets@[j2]@), merged_cols@[j2]@, column_of(g, j2));
                }
            }
        }

        // Iterated filtering collapses: the new sets are the clue's full
        // candidates narrowed by the merged grid alone.
        proof {
            assert forall|i2: int| 0 <= i2 < nrows implies views(#[trigger] new_row_sets@[i2]@)
                == filter_spec(combos_spec(rows@[i2]@, ncols as int), merged_rows@[i2]@) by {
                assert(views(new_row_sets@[i2]@) == filter_spec(
                    views(row_sets@[i2]@),
                    merged_rows@[i2]@,
                ));
                assert(views(row_sets@[i2]@) == filter_spec(
                    combos_spec(rows@[i2]@, ncols as int),
                    prev@[i2]@,
                ));
                assert(line_refines(prev@[i2]@, merged_rows@[i2]@)) by {
                    assert(views(prev@)[i2] == prev@[i2]@);
                    assert(views(merged_rows@)[i2] == merged_rows@[i2]@);
                    assert(line_refines(views(prev@)[i2], views(merged_rows@)[i2]));
                }
                lemma_filter_refine_absorb(
                    combos_spec(rows@[i2]@, ncols as int),
                    prev@[i2]@,
                    merged_rows@[i2]@,
                );
            }
            assert forall|j2: int| 0 <= j2 < ncols implies views(#[trigger] new_col_sets@[j2]@)
                == filter_spec(
                combos_spec(cols@[j2]@, nrows as int),
                column_of(views(merged_rows@), j2),
            ) by {
                assert(views(new_col_sets@[j2]@) == filter_spec(
                    views(col_sets@[j2]@),
                    merged_cols@[j2]@,
                ));
                assert(views(col_sets@[j2]@) == filter_spec(
                    combos_spec(cols@[j2]@, nrows as int),
                    column_of(views(prev@), j2),
                ));
                assert(merged_cols@[j2]@ == column_of(views(merged_rows@), j2));
                assert(line_refines(
                    column_of(views(prev@), j2),
                    column_of(views(merged_rows@), j2),
                )) by {
                    assert forall|c: int|
                        0 <= c < nrows && column_of(views(prev@), j2)[c] != Cell::Unknown
                        implies #[trigger] column_of(views(merged_rows@), j2)[c] == column_of(
                        views(prev@),
                        j2,
                    )[c] by {
                        assert(column_of(views(prev@), j2)[c] == views(prev@)[c][j2]);
                        assert(column_of(views(merged_rows@), j2)[c] == views(merged_rows@)[c][j2]);
                        assert(line_refines(views(prev@)[c], views(merged_rows@)[c]));
                    }
                }
                lemma_filter_refine_absorb(
                    combos_spec(cols@[j2]@, nrows as int),
                    column_of(views(prev@), j2),
                    column_of(views(merged_rows@), j2),
                );
            }
        }
        let mut i: usize = 0;
        while i < new_row_sets.len()
            invariant
                0 <= i <= new_row_sets@.len(),
                forall|r: int| 0 <= r < i ==> (#[trigger] new_row_sets@[r]@).len() >= 1,
            decreases new_row_sets@.len() - i,
        {
            if new_row_sets[i].len() == 0 {
                proof {
                    assert forall|g: Seq<Seq<Cell>>|
                        !#[trigger] solves(g, clue_views(rows@), clue_views(cols@)) by {
                        if solves(g, clue_views(rows@), clue_views(cols@)) {
                            assert(views(new_row_sets@[i as int]@).contains(g[i as int]));
                            assert(views(new_row_sets@[i as int]@).len() == 0);
                        }
                    }
                    assert(views(new_row_sets@[i as int]@).len() == 0);
                    assert(views(merged_rows@)[i as int] == merged_rows@[i as int]@);
                    assert(views(snapshots@.last()@) == views(merged_rows@));
                }
                return SolveReport {
                    status: SolveStatus::EmptyRowCombos { row: i },
                    steps,
                    grid: merged_rows,
                    snapshots,
                };
            }
            i = i + 1;
        }
        let mut j: usize = 0;
        while j < new_col_sets.len()
            invariant
                0 <= j <= new_col_sets@.len(),
                forall|c: int| 0 <= c < j ==> (#[trigger] new_col_sets@[c]@).len() >= 1,
            decreases new_col_sets@.len() - j,
        {
            if new_col_sets[j].len() == 0 {
                proof {
                    assert forall|g: Seq<Seq<Cell>>|
                        !#[trigger] solves(g, clue_views(rows@), clue_views(cols@)) by {
                        if solves(g, clue_views(rows@), clue_views(cols@)) {
                            assert(views(new_col_sets@[j as int]@).contains(column_of(g, j as int)));
                            assert(views(new_col_sets@[j as int]@).len() == 0);
                        }
                    }
                    assert(views(new_col_sets@[j as int]@).len() == 0);
                    assert(views(snapshots@.last()@) == views(merged_rows@));
                }
                return SolveReport {
                    status: SolveStatus::EmptyColCombos { col: j },
                    steps,
                    grid: merged_rows,
                    snapshots,
                };
            }
            j = j + 1;
        }

        if all_concrete(&merged_rows) {
            proof {
                let g = views(merged_rows@);
                assert forall|i2: int| 0 <= i2 < rows@.len()
                    implies is_line(#[trigger] clue_views(rows@)[i2], g[i2]) by {
                    let e = new_row_sets@[i2]@[0]@;
                    assert(matches_mask(e, merged_rows@[i2]@));
                    assert(g[i2] == merged_rows@[i2]@);
                    assert forall|c: int| 0 <= c < ncols implies e[c] == merged_rows@[i2]@[c] by {
                        assert(g[i2][c] != Cell::Unknown);
                    }
                    assert(e =~= merged_rows@[i2]@);
                    assert(clue_views(rows@)[i2] == rows@[i2]@);
                }
                assert forall|j2: int| 0 <= j2 < cols@.len()
                    implies is_line(#[trigger] clue_views(cols@)[j2], column_of(g, j2)) by {
                    let e = new_col_sets@[j2]@[0]@;
                    assert(matches_mask(e, merged_cols@[j2]@));
                    assert(merged_cols@[j2]@ == column_of(g, j2));
                    assert forall|c: int| 0 <= c < nrows implies e[c] == merged_cols@[j2]@[c] by {
                        assert(column_of(g, j2)[c] == g[c][j2]);
                        assert(g[c][j2] != Cell::Unknown);
                    }
                    assert(e =~= merged_cols@[j2]@);
                    assert(clue_views(cols@)[j2] == cols@[j2]@);
                }
                assert(grid_dims(g, rows@.len() as int, cols@.len() as int)) by {
                    assert forall|i2: int| 0 <= i2 < nrows
                        implies (#[trigger] g[i2]).len() == ncols by {
                        assert(g[i2] == merged_rows@[i2]@);
                    }
                }
                assert(views(snapshots@.last()@) == views(merged_rows@));
            }
            return SolveReport {
                status: SolveStatus::Solved,
                steps,
                grid: merged_rows,
                snapshots,
            };
        }

        if grids_equal(&merged_rows, &prev) {
            proof {
                assert(views(merged_rows@) == views(prev@));
                assert(round_spec(clue_views(rows@), clue_views(cols@), views(merged_rows@))
                    == views(merged_rows@));
                assert(views(snapshots@.last()@) == views(merged_rows@));
            }
            return SolveReport {
                status: SolveStatus::Stalled,
                steps,
                grid: merged_rows,
                snapshots,
            };
        }

        // Some cell became concrete this round: the count of unknown
        // cells strictly falls, which bounds the whole solve.
        proof {
            let a = views(prev@);
            let b = views(merged_rows@);
            assert(exists|r: int| 0 <= r < a.len() && #[trigger] a[r] != b[r]) by {
                if forall|r: int| 0 <= r < a.len() ==> #[trigger] a[r] == b[r] {
                    assert(a =~= b);
                }
            }
            lemma_grid_unknowns_refines(a, b);
            lemma_grid_unknowns_bounds(b, ncols as int);
        }
        row_sets = new_row_sets;
        col_sets = new_col_sets;
        prev = merged_rows;
    }
}

} // verus!
