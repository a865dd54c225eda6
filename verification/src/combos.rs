//! The combo generator: every candidate filling of one line, computed
//! exactly as `combos_spec` describes it.

use vstd::prelude::*;
use crate::cells::{Cell, views};
use crate::lines::{
    combos_spec, empties, filleds, lemma_combos_len, lemma_min_size_nonneg, lemma_min_size_step,
    lemma_prepend_all, lemma_sum_nonneg, lemma_sum_skip_le, prepend_all, sep_of, spec_min_size,
    spec_sum,
};

verus! {

/// The least line length `chunk_list` fits in: the runs, plus one
/// separator cell between consecutive runs.
pub fn min_size_of_chunk_list(chunk_list: &Vec<usize>) -> (size: usize)
    requires
        spec_min_size(chunk_list@) <= usize::MAX,
    ensures
        size == spec_min_size(chunk_list@),
{
    let len = chunk_list.len();
    if len == 0 {
        return 0;
    }
    let mut acc: usize = 0;
    let mut i: usize = len;
    while i > 0
        invariant
            0 <= i <= len,
            len == chunk_list@.len(),
            acc == spec_sum(chunk_list@.skip(i as int)),
            spec_min_size(chunk_list@) <= usize::MAX,
            len >= 1,
        decreases i,
    {
        proof {
            lemma_sum_skip_le(chunk_list@, i - 1);
            lemma_sum_nonneg(chunk_list@.skip(i - 1));
            let s = chunk_list@.skip(i - 1);
            assert(s.drop_first() =~= chunk_list@.skip(i as int));
            assert(spec_sum(s) == chunk_list@[i - 1] + spec_sum(chunk_list@.skip(i as int)));
        }
        i = i - 1;
        acc = chunk_list[i] + acc;
    }
    proof {
        assert(chunk_list@.skip(0) =~= chunk_list@);
    }
    acc + (len - 1)
}

/// Whether `clue[start..]` needs more than `n` cells. Computed without
/// ever forming the full minimum size, so no bound on the clue is needed.
fn min_size_exceeds(clue: &Vec<usize>, start: usize, n: usize) -> (r: bool)
    requires
        start <= clue@.len(),
    ensures
        r == (spec_min_size(clue@.skip(start as int)) > n),
    decreases clue@.len() - start,
{
    if start == clue.len() {
        proof {
            assert(clue@.skip(start as int) =~= Seq::<usize>::empty());
        }
        return false;
    }
    let c0 = clue[start];
    let sep: usize = if start + 1 < clue.len() {
        1
    } else {
        0
    };
    proof {
        lemma_min_size_step(clue@, start as int);
        lemma_min_size_nonneg(clue@.skip(start as int + 1));
        assert(sep == sep_of(clue@.skip(start as int)));
    }
    if n < c0 {
        true
    } else if n - c0 < sep {
        true
    } else if start + 1 == clue.len() {
        false
    } else {
        min_size_exceeds(clue, start + 1, n - c0 - sep)
    }
}

/// A line of `n` empty cells.
fn empty_line(n: usize) -> (line: Vec<Cell>)
    ensures
        line@ == empties(n as int),
{
    let mut line: Vec<Cell> = Vec::new();
    push_cells(&mut line, Cell::Empty, n);
    proof {
        assert(line@ =~= empties(n as int));
    }
    line
}

/// Appends `count` copies of `c` to `line`.
fn push_cells(line: &mut Vec<Cell>, c: Cell, count: usize)
    requires
        old(line)@.len() + count <= usize::MAX,
    ensures
        final(line)@ == old(line)@ + crate::lines::repeat_cell(c, count as int),
{
    let mut k: usize = 0;
    while k < count
        invariant
            0 <= k <= count,
            line@ == old(line)@ + crate::lines::repeat_cell(c, k as int),
        decreases count - k,
    {
        line.push(c);
        proof {
            assert(line@ =~= old(line)@ + crate::lines::repeat_cell(c, k + 1 as int));
        }
        k = k + 1;
    }
}

/// Appends every cell of `tail` to `line`.
fn extend_cells(line: &mut Vec<Cell>, tail: &Vec<Cell>)
    requires
        old(line)@.len() + tail@.len() <= usize::MAX,
    ensures
        final(line)@ == old(line)@ + tail@,
{
    let mut k: usize = 0;
    while k < tail.len()
        invariant
            0 <= k <= tail@.len(),
            line@ == old(line)@ + tail@.take(k as int),
        decreases tail@.len() - k,
    {
        line.push(tail[k]);
        proof {
            assert(line@ =~= old(line)@ + tail@.take(k + 1 as int));
        }
        k = k + 1;
    }
    proof {
        assert(tail@.take(tail@.len() as int) =~= tail@);
    }
}

/// Every candidate filling of a line of `total_size` cells for the clue
/// `chunk_list`, ordered by leading-gap size. An empty clue yields the one
/// all-empty line; a clue that does not fit yields no combo at all.
pub fn create_combos(chunk_list: &Vec<usize>, total_size: usize) -> (combos: Vec<Vec<Cell>>)
    ensures
        views(combos@) == combos_spec(chunk_list@, total_size as int),
{
    proof {
        assert(chunk_list@.skip(0) =~= chunk_list@);
    }
    combos_from(chunk_list, 0, total_size)
}

fn combos_from(clue: &Vec<usize>, start: usize, n: usize) -> (combos: Vec<Vec<Cell>>)
    requires
        start <= clue@.len(),
    ensures
        views(combos@) == combos_spec(clue@.skip(start as int), n as int),
    decreases clue@.len() - start, n,
{
    let ghost sclue = clue@.skip(start as int);
    if min_size_exceeds(clue, start, n) {
        let combos: Vec<Vec<Cell>> = Vec::new();
        proof {
            assert(views(combos@) =~= combos_spec(sclue, n as int));
        }
        return combos;
    }
    if start == clue.len() {
        proof {
            assert(sclue =~= Seq::<usize>::empty());
        }
        let mut combos: Vec<Vec<Cell>> = Vec::new();
        combos.push(empty_line(n));
        proof {
            assert(views(combos@) =~= seq![empties(n as int)]);
        }
        return combos;
    }

    let c0 = clue[start];
    let sep: usize = if start + 1 < clue.len() {
        1
    } else {
        0
    };
    let ghost rest = clue@.skip(start as int + 1);
    proof {
        lemma_min_size_step(clue@, start as int);
        lemma_min_size_nonneg(rest);
        assert(sep == sep_of(sclue));
        assert(sclue[0] == clue@[start as int]);
        assert(sclue.drop_first() =~= rest);
    }
    // The first run starts at cell 0: one combo per filling of the rest.
    let m = n - c0 - sep;
    let tails = combos_from(clue, start + 1, m);
    let ghost prefix = filleds(c0 as int) + empties(sep as int);
    let ghost here = prepend_all(prefix, combos_spec(rest, m as int));
    proof {
        lemma_prepend_all(prefix, combos_spec(rest, m as int));
        lemma_combos_len(rest, m as int);
        assert forall|j: int| 0 <= j < tails@.len() implies #[trigger] tails@[j]@.len() == m by {
            assert(views(tails@)[j] == tails@[j]@);
        }
    }
    let mut combos: Vec<Vec<Cell>> = Vec::new();
    let mut k: usize = 0;
    while k < tails.len()
        invariant
            0 <= k <= tails@.len(),
            prefix == filleds(c0 as int) + empties(sep as int),
            here.len() == tails@.len(),
            forall|j: int| 0 <= j < tails@.len() ==> #[trigger] here[j] == prefix + tails@[j]@,
            forall|j: int| 0 <= j < tails@.len() ==> #[trigger] tails@[j]@.len() == m,
            c0 + sep + m == n,
            n <= usize::MAX,
            combos@.len() == k,
            forall|j: int| 0 <= j < k ==> #[trigger] combos@[j]@ == here[j],
        decreases tails@.len() - k,
    {
        let mut line: Vec<Cell> = Vec::new();
        push_cells(&mut line, Cell::Filled, c0);
        push_cells(&mut line, Cell::Empty, sep);
        extend_cells(&mut line, &tails[k]);
        proof {
            assert(line@ =~= prefix + tails@[k as int]@);
        }
        let ghost prev = combos@;
        combos.push(line);
        proof {
            assert forall|j: int| 0 <= j < k + 1 implies #[trigger] combos@[j]@ == here[j] by {
                assert(combos@[j] == prev.push(line)[j]);
                if j < k {
                    assert(prev.push(line)[j] == prev[j]);
                } else {
                    assert(prev.push(line)[j] == line);
                    assert(here[j] == prefix + tails@[j]@);
                }
            }
        }
        k = k + 1;
    }
    // The first run starts later: every filling of the same clue in a line
    // one cell shorter, shifted right by one leading empty cell.
    let ghost later = prepend_all(seq![Cell::Empty], combos_spec(sclue, n as int - 1));
    if n > 0 {
        let shorter = combos_from(clue, start, n - 1);
        proof {
            lemma_prepend_all(seq![Cell::Empty], combos_spec(sclue, n as int - 1));
            lemma_combos_len(sclue, n as int - 1);
            assert forall|j: int| 0 <= j < shorter@.len()
                implies #[trigger] shorter@[j]@.len() == n - 1 by {
                assert(views(shorter@)[j] == shorter@[j]@);
            }
        }
        let mut k2: usize = 0;
        while k2 < shorter.len()
            invariant
                0 <= k2 <= shorter@.len(),
                later.len() == shorter@.len(),
                forall|j: int| 0 <= j < shorter@.len()
                    ==> #[trigger] later[j] == seq![Cell::Empty] + shorter@[j]@,
                forall|j: int| 0 <= j < shorter@.len() ==> #[trigger] shorter@[j]@.len() == n - 1,
                n <= usize::MAX,
                combos@.len() == here.len() + k2,
                forall|j: int| 0 <= j < here.len() ==> #[trigger] combos@[j]@ == here[j],
                forall|j: int| here.len() <= j < here.len() + k2
                    ==> #[trigger] combos@[j]@ == later[j - here.len()],
            decreases shorter@.len() - k2,
        {
            let mut line: Vec<Cell> = Vec::new();
            line.push(Cell::Empty);
            extend_cells(&mut line, &shorter[k2]);
            proof {
                assert(line@ =~= seq![Cell::Empty] + shorter@[k2 as int]@);
            }
            let ghost prev = combos@;
            combos.push(line);
            proof {
                assert forall|j: int| 0 <= j < combos@.len()
                    implies #[trigger] combos@[j]@ == (here + later)[j] by {
                    assert(combos@[j] == prev.push(line)[j]);
                    if j < prev.len() {
                        assert(prev.push(line)[j] == prev[j]);
                        if j < here.len() {
                            assert((here + later)[j] == here[j]);
                        } else {
                            assert((here + later)[j] == later[j - here.len()]);
                        }
                    } else {
                        assert(prev.push(line)[j] == line);
                        assert((here + later)[j] == later[k2 as int]);
                    }
                }
            }
            k2 = k2 + 1;
        }
    } else {
        proof {
            lemma_min_size_nonneg(sclue);
            assert(combos_spec(sclue, -1).len() == 0);
            assert(later =~= Seq::<Seq<Cell>>::empty());
        }
    }
    proof {
        assert(combos_spec(sclue, n as int) == here + later);
        assert forall|j: int| 0 <= j < combos@.len()
            implies views(combos@)[j] == (here + later)[j] by {
            assert(views(combos@)[j] == combos@[j]@);
            if j < here.len() {
                assert((here + later)[j] == here[j]);
            } else {
                assert((here + later)[j] == later[j - here.len()]);
            }
        }
        assert(views(combos@) =~= here + later);
    }
    combos
}

} // verus!
