//! The cell alphabet of a nonogram grid, and the basic spec views of
//! rows, masks and combo sets.

use vstd::prelude::*;

verus! {

/// One cell of a line: `Filled` and `Empty` are the concrete states a
/// finished candidate line may hold; `Unknown` appears only in masks, at
/// positions where the remaining candidates disagree.
#[derive(Clone, Copy, Debug, PartialEq, Eq, Structural)]
pub enum Cell {
    Filled,
    Empty,
    Unknown,
}

/// The sequence-of-sequences view of a vector of lines.
pub open spec fn views(lines: Seq<Vec<Cell>>) -> Seq<Seq<Cell>> {
    lines.map_values(|line: Vec<Cell>| line@)
}

/// Viewing commutes with appending one line.
pub proof fn lemma_views_push(lines: Seq<Vec<Cell>>, line: Vec<Cell>)
    ensures
        views(lines.push(line)) == views(lines).push(line@),
{
    assert forall|j: int| 0 <= j < lines.len() + 1
        implies views(lines.push(line))[j] == views(lines).push(line@)[j] by {
        assert(views(lines.push(line))[j] == lines.push(line)[j]@);
        if j < lines.len() {
            assert(lines.push(line)[j] == lines[j]);
            assert(views(lines)[j] == lines[j]@);
        } else {
            assert(lines.push(line)[j] == line);
        }
    }
    assert(views(lines.push(line)) =~= views(lines).push(line@));
}

} // verus!
