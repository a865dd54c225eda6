//! The mathematical model of a single line: clues, the minimum space a
//! clue needs, the predicate saying that a concrete line realises a clue,
//! and the sequence of all candidate fillings (combos) of a line.

use vstd::prelude::*;
use crate::cells::Cell;

verus! {

/// Sum of the run lengths of a clue.
pub open spec fn spec_sum(clue: Seq<usize>) -> int
    decreases clue.len(),
{
    if clue.len() == 0 {
        0
    } else {
        clue[0] + spec_sum(clue.drop_first())
    }
}

/// The least line length a clue fits in: the runs plus one mandatory
/// separator cell between consecutive runs.
pub open spec fn spec_min_size(clue: Seq<usize>) -> int {
    if clue.len() == 0 {
        0
    } else {
        spec_sum(clue) + clue.len() - 1
    }
}

/// Every run of the clue is positive.
pub open spec fn all_positive(clue: Seq<usize>) -> bool {
    forall|i: int| 0 <= i < clue.len() ==> #[trigger] clue[i] >= 1
}

/// `k` copies of one cell.
pub open spec fn repeat_cell(c: Cell, k: int) -> Seq<Cell> {
    Seq::new(k as nat, |i: int| c)
}

pub open spec fn empties(k: int) -> Seq<Cell> {
    repeat_cell(Cell::Empty, k)
}

pub open spec fn filleds(k: int) -> Seq<Cell> {
    repeat_cell(Cell::Filled, k)
}

pub open spec fn all_empty(s: Seq<Cell>) -> bool {
    forall|i: int| 0 <= i < s.len() ==> s[i] == Cell::Empty
}

/// The separator a clue demands after its first run: one empty cell when
/// more runs follow, none when the first run is the last.
pub open spec fn sep_of(clue: Seq<usize>) -> int {
    if clue.len() > 1 {
        1
    } else {
        0
    }
}

/// `s` is a concrete line realising `clue`: read left to right, its
/// maximal filled runs have exactly the lengths of `clue`, in order,
/// and no cell is `Unknown`.
pub open spec fn is_line(clue: Seq<usize>, s: Seq<Cell>) -> bool
    decreases s.len(),
{
    if clue.len() == 0 {
        all_empty(s)
    } else if s.len() == 0 {
        false
    } else if s[0] == Cell::Empty {
        is_line(clue, s.drop_first())
    } else if s[0] == Cell::Filled {
        let c0 = clue[0] as int;
        let sep = sep_of(clue);
        if c0 < 1 || s.len() < c0 + sep {
            false
        } else if !(forall|i: int| 0 <= i < c0 ==> s[i] == Cell::Filled) {
            false
        } else if sep == 1 && s[c0] != Cell::Empty {
            false
        } else {
            is_line(clue.drop_first(), s.skip(c0 + sep))
        }
    } else {
        false
    }
}

/// Each element of `tails`, with `prefix` glued onto its front.
pub open spec fn prepend_all(prefix: Seq<Cell>, tails: Seq<Seq<Cell>>) -> Seq<Seq<Cell>>
    decreases tails.len(),
{
    if tails.len() == 0 {
        Seq::empty()
    } else {
        seq![prefix + tails[0]] + prepend_all(prefix, tails.drop_first())
    }
}

/// Every candidate filling of a line of length `n` for `clue`, ordered by
/// the size of the leading gap at each level: first the fillings whose
/// first run starts at cell 0, then, shifted one cell right, those of the
/// same clue in a line one cell shorter.
pub open spec fn combos_spec(clue: Seq<usize>, n: int) -> Seq<Seq<Cell>>
    decreases clue.len(), n + 1,
{
    if n < 0 || n < spec_min_size(clue) {
        Seq::empty()
    } else if clue.len() == 0 {
        seq![empties(n)]
    } else {
        let c0 = clue[0] as int;
        let sep = sep_of(clue);
        let here = prepend_all(filleds(c0) + empties(sep), combos_spec(clue.drop_first(), n - c0 - sep));
        let later = prepend_all(seq![Cell::Empty], combos_spec(clue, n - 1));
        here + later
    }
}

pub proof fn lemma_prepend_all(prefix: Seq<Cell>, tails: Seq<Seq<Cell>>)
    ensures
        prepend_all(prefix, tails).len() == tails.len(),
        forall|k: int| 0 <= k < tails.len()
            ==> #[trigger] prepend_all(prefix, tails)[k] == prefix + tails[k],
    decreases tails.len(),
{
    if tails.len() > 0 {
        lemma_prepend_all(prefix, tails.drop_first());
        assert forall|k: int| 0 <= k < tails.len()
            implies #[trigger] prepend_all(prefix, tails)[k] == prefix + tails[k] by {
            if k > 0 {
                assert(prepend_all(prefix, tails)[k] == prepend_all(prefix, tails.drop_first())[k - 1]);
                assert(tails.drop_first()[k - 1] == tails[k]);
            }
        }
    }
}

/// Every combo of a line of length `n` has length `n`.
pub proof fn lemma_combos_len(clue: Seq<usize>, n: int)
    ensures
        forall|k: int| 0 <= k < combos_spec(clue, n).len()
            ==> (#[trigger] combos_spec(clue, n)[k]).len() == n,
    decreases clue.len(), n + 1,
{
    let cs = combos_spec(clue, n);
    if n < 0 || n < spec_min_size(clue) {
    } else if clue.len() == 0 {
        assert(cs[0].len() == n);
    } else {
        let c0 = clue[0] as int;
        let sep = sep_of(clue);
        let sub = combos_spec(clue.drop_first(), n - c0 - sep);
        let shorter = combos_spec(clue, n - 1);
        let prefix = filleds(c0) + empties(sep);
        lemma_combos_len(clue.drop_first(), n - c0 - sep);
        lemma_combos_len(clue, n - 1);
        lemma_prepend_all(prefix, sub);
        lemma_prepend_all(seq![Cell::Empty], shorter);
        let here = prepend_all(prefix, sub);
        let later = prepend_all(seq![Cell::Empty], shorter);
        assert(prefix.len() == c0 + sep);
        assert forall|k: int| 0 <= k < cs.len() implies (#[trigger] cs[k]).len() == n by {
            if k < here.len() {
                assert(cs[k] == here[k]);
                assert(here[k] == prefix + sub[k]);
            } else {
                assert(cs[k] == later[k - here.len()]);
                assert(later[k - here.len()] == seq![Cell::Empty] + shorter[k - here.len()]);
            }
        }
    }
}

/// A clue with positive runs keeps that shape when its first run is
/// dropped.
pub proof fn lemma_positive_drop_first(clue: Seq<usize>)
    requires
        all_positive(clue),
        clue.len() >= 1,
    ensures
        all_positive(clue.drop_first()),
{
    assert forall|i: int| 0 <= i < clue.drop_first().len()
        implies #[trigger] clue.drop_first()[i] >= 1 by {
        assert(clue.drop_first()[i] == clue[i + 1]);
    }
}

/// The minimum size of a clue, read off its head and tail.
pub proof fn lemma_min_size_head(clue: Seq<usize>)
    requires
        clue.len() >= 1,
    ensures
        spec_min_size(clue) == clue[0] + sep_of(clue) + spec_min_size(clue.drop_first()),
{
    assert(clue.skip(0) =~= clue);
    assert(clue.skip(1) =~= clue.drop_first());
    lemma_min_size_step(clue, 0);
}

/// A clue that fits has at least one candidate filling.
pub proof fn lemma_combos_nonempty(clue: Seq<usize>, n: int)
    requires
        0 <= n,
        spec_min_size(clue) <= n,
    ensures
        combos_spec(clue, n).len() >= 1,
    decreases clue.len(),
{
    if clue.len() == 0 {
    } else {
        let c0 = clue[0] as int;
        let sep = sep_of(clue);
        lemma_min_size_head(clue);
        lemma_min_size_nonneg(clue.drop_first());
        lemma_combos_nonempty(clue.drop_first(), n - c0 - sep);
        let prefix = filleds(c0) + empties(sep);
        lemma_prepend_all(prefix, combos_spec(clue.drop_first(), n - c0 - sep));
    }
}

/// Soundness of the generator: with positive runs, every candidate of
/// `combos_spec(clue, n)` realises `clue`.
pub proof fn lemma_combos_sound(clue: Seq<usize>, n: int)
    requires
        all_positive(clue),
    ensures
        forall|k: int| 0 <= k < combos_spec(clue, n).len()
            ==> is_line(clue, #[trigger] combos_spec(clue, n)[k]),
    decreases clue.len(), n + 1,
{
    let cs = combos_spec(clue, n);
    if n < 0 || n < spec_min_size(clue) {
    } else if clue.len() == 0 {
        assert(is_line(clue, empties(n)));
    } else {
        let c0 = clue[0] as int;
        let sep = sep_of(clue);
        let m = n - c0 - sep;
        let sub = combos_spec(clue.drop_first(), m);
        let shorter = combos_spec(clue, n - 1);
        let prefix = filleds(c0) + empties(sep);
        let here = prepend_all(prefix, sub);
        let later = prepend_all(seq![Cell::Empty], shorter);
        lemma_positive_drop_first(clue);
        lemma_combos_sound(clue.drop_first(), m);
        lemma_combos_sound(clue, n - 1);
        lemma_combos_len(clue.drop_first(), m);
        lemma_combos_len(clue, n - 1);
        lemma_prepend_all(prefix, sub);
        lemma_prepend_all(seq![Cell::Empty], shorter);
        assert forall|k: int| 0 <= k < cs.len() implies is_line(clue, #[trigger] cs[k]) by {
            if k < here.len() {
                let t = sub[k];
                let s = prefix + t;
                assert(cs[k] == s);
                assert(s.len() == c0 + sep + t.len());
                assert(s[0] == Cell::Filled);
                assert forall|i: int| 0 <= i < c0 implies s[i] == Cell::Filled by {
                    assert(s[i] == prefix[i]);
                    assert(prefix[i] == filleds(c0)[i]);
                }
                if sep == 1 {
                    assert(s[c0] == prefix[c0]);
                    assert(prefix[c0] == empties(sep)[0]);
                }
                assert(s.skip(c0 + sep) =~= t);
                assert(is_line(clue.drop_first(), t));
                assert(is_line(clue, s));
            } else {
                let t = shorter[k - here.len()];
                let s = seq![Cell::Empty] + t;
                assert(cs[k] == s);
                assert(s[0] == Cell::Empty);
                assert(s.drop_first() =~= t);
                assert(is_line(clue, t));
                assert(is_line(clue, s));
            }
        }
    }
}

/// A line realising a clue is at least as long as the clue's minimum.
pub proof fn lemma_is_line_min_size(clue: Seq<usize>, s: Seq<Cell>)
    requires
        is_line(clue, s),
    ensures
        s.len() >= spec_min_size(clue),
    decreases s.len(),
{
    if clue.len() == 0 {
    } else if s[0] == Cell::Empty {
        lemma_is_line_min_size(clue, s.drop_first());
    } else {
        let c0 = clue[0] as int;
        let sep = sep_of(clue);
        lemma_is_line_min_size(clue.drop_first(), s.skip(c0 + sep));
        lemma_min_size_head(clue);
    }
}

/// Completeness of the generator: every line realising the clue is among
/// the generated candidates.
pub proof fn lemma_combos_complete(clue: Seq<usize>, n: int, s: Seq<Cell>)
    requires
        all_positive(clue),
        is_line(clue, s),
        s.len() == n,
    ensures
        combos_spec(clue, n).contains(s),
    decreases clue.len(), n + 1,
{
    lemma_is_line_min_size(clue, s);
    lemma_min_size_nonneg(clue);
    if clue.len() == 0 {
        assert(s =~= empties(n));
        assert(combos_spec(clue, n)[0] == s);
    } else {
        let c0 = clue[0] as int;
        let sep = sep_of(clue);
        let prefix = filleds(c0) + empties(sep);
        let sub = combos_spec(clue.drop_first(), n - c0 - sep);
        let shorter = combos_spec(clue, n - 1);
        let here = prepend_all(prefix, sub);
        let later = prepend_all(seq![Cell::Empty], shorter);
        lemma_prepend_all(prefix, sub);
        lemma_prepend_all(seq![Cell::Empty], shorter);
        if s[0] == Cell::Empty {
            let t = s.drop_first();
            lemma_combos_complete(clue, n - 1, t);
            let w = choose|k: int| 0 <= k < shorter.len() && shorter[k] == t;
            assert(later[w] == seq![Cell::Empty] + t);
            assert(seq![Cell::Empty] + t =~= s);
            assert(combos_spec(clue, n)[here.len() + w] == s);
        } else {
            let t = s.skip(c0 + sep);
            lemma_positive_drop_first(clue);
            lemma_combos_complete(clue.drop_first(), n - c0 - sep, t);
            let w = choose|k: int| 0 <= k < sub.len() && sub[k] == t;
            assert(here[w] == prefix + t);
            assert(prefix + t =~= s);
            assert(combos_spec(clue, n)[w] == s);
        }
    }
}

/// The binomial coefficient, by Pascal's rule: the number of ways to
/// choose `k` items out of `n`.
pub open spec fn binom(n: int, k: int) -> int
    decreases n,
{
    if k < 0 || n < k {
        0
    } else if k == 0 {
        1
    } else {
        binom(n - 1, k - 1) + binom(n - 1, k)
    }
}

/// The closed-form count of the generator: a clue that fits leaves
/// `n - min` free empty cells to distribute around its runs, one
/// placement per way of choosing where the runs sit.
pub proof fn lemma_combos_count(clue: Seq<usize>, n: int)
    ensures
        combos_spec(clue, n).len() == if n < 0 || n < spec_min_size(clue) {
            0int
        } else {
            binom(n - spec_min_size(clue) + clue.len(), clue.len() as int)
        },
    decreases clue.len(), n + 1,
{
    if n < 0 || n < spec_min_size(clue) {
    } else if clue.len() == 0 {
    } else {
        let c0 = clue[0] as int;
        let sep = sep_of(clue);
        let k = clue.len() as int;
        let m = spec_min_size(clue);
        let sub = combos_spec(clue.drop_first(), n - c0 - sep);
        let shorter = combos_spec(clue, n - 1);
        lemma_min_size_head(clue);
        lemma_min_size_nonneg(clue.drop_first());
        lemma_combos_count(clue.drop_first(), n - c0 - sep);
        lemma_combos_count(clue, n - 1);
        lemma_prepend_all(filleds(c0) + empties(sep), sub);
        lemma_prepend_all(seq![Cell::Empty], shorter);
        assert(sub.len() == binom(n - m + k - 1, k - 1));
        assert(shorter.len() == binom(n - m + k - 1, k)) by {
            if n - 1 < spec_min_size(clue) {
                assert(n - m + k - 1 < k);
            }
        }
        assert(combos_spec(clue, n).len() == sub.len() + shorter.len());
    }
}

/// The generator repeats no candidate: together with soundness and
/// completeness, the number of generated combos is exactly the number of
/// lines realising the clue.
pub proof fn lemma_combos_distinct(clue: Seq<usize>, n: int)
    requires
        all_positive(clue),
    ensures
        combos_spec(clue, n).no_duplicates(),
    decreases clue.len(), n + 1,
{
    let cs = combos_spec(clue, n);
    if n < 0 || n < spec_min_size(clue) {
    } else if clue.len() == 0 {
    } else {
        let c0 = clue[0] as int;
        let sep = sep_of(clue);
        let prefix = filleds(c0) + empties(sep);
        let sub = combos_spec(clue.drop_first(), n - c0 - sep);
        let shorter = combos_spec(clue, n - 1);
        let here = prepend_all(prefix, sub);
        let later = prepend_all(seq![Cell::Empty], shorter);
        lemma_positive_drop_first(clue);
        lemma_combos_distinct(clue.drop_first(), n - c0 - sep);
        lemma_combos_distinct(clue, n - 1);
        lemma_prepend_all(prefix, sub);
        lemma_prepend_all(seq![Cell::Empty], shorter);
        assert forall|k1: int, k2: int| 0 <= k1 < cs.len() && 0 <= k2 < cs.len() && k1 != k2
            implies cs[k1] != cs[k2] by {
            if k1 < here.len() && k2 < here.len() {
                assert(cs[k1] == prefix + sub[k1] && cs[k2] == prefix + sub[k2]);
                assert((prefix + sub[k1]).skip(prefix.len() as int) =~= sub[k1]);
                assert((prefix + sub[k2]).skip(prefix.len() as int) =~= sub[k2]);
                assert(sub[k1] != sub[k2]);
            } else if k1 >= here.len() && k2 >= here.len() {
                let t1 = shorter[k1 - here.len()];
                let t2 = shorter[k2 - here.len()];
                assert(cs[k1] == seq![Cell::Empty] + t1 && cs[k2] == seq![Cell::Empty] + t2);
                assert((seq![Cell::Empty] + t1).skip(1) =~= t1);
                assert((seq![Cell::Empty] + t2).skip(1) =~= t2);
                assert(t1 != t2);
            } else {
                let kh = if k1 < here.len() { k1 } else { k2 };
                let kl = if k1 < here.len() { k2 } else { k1 };
                assert(cs[kh] == prefix + sub[kh]);
                assert(cs[kh][0] == prefix[0]);
                assert(prefix[0] == filleds(c0)[0]);
                assert(cs[kl] == seq![Cell::Empty] + shorter[kl - here.len()]);
                assert(cs[kl][0] == Cell::Empty);
            }
        }
        assert(cs.no_duplicates());
    }
}

pub proof fn lemma_sum_nonneg(clue: Seq<usize>)
    ensures
        spec_sum(clue) >= 0,
    decreases clue.len(),
{
    if clue.len() > 0 {
        lemma_sum_nonneg(clue.drop_first());
    }
}

pub proof fn lemma_min_size_nonneg(clue: Seq<usize>)
    ensures
        spec_min_size(clue) >= 0,
{
    lemma_sum_nonneg(clue);
}

/// One step of the minimum-size recursion over a clue's tail.
pub proof fn lemma_min_size_step(clue: Seq<usize>, start: int)
    requires
        0 <= start < clue.len(),
    ensures
        spec_min_size(clue.skip(start)) == clue[start] + sep_of(clue.skip(start))
            + spec_min_size(clue.skip(start + 1)),
{
    let s = clue.skip(start);
    assert(s.drop_first() =~= clue.skip(start + 1));
    assert(spec_sum(s) == clue[start] + spec_sum(clue.skip(start + 1)));
}

/// The tail of a clue never needs more space than the whole clue.
pub proof fn lemma_sum_skip_le(clue: Seq<usize>, start: int)
    requires
        0 <= start <= clue.len(),
    ensures
        spec_sum(clue.skip(start)) <= spec_sum(clue),
    decreases start,
{
    if start == 0 {
        assert(clue.skip(0) =~= clue);
    } else {
        lemma_sum_skip_le(clue, start - 1);
        let s = clue.skip(start - 1);
        assert(s.drop_first() =~= clue.skip(start));
        assert(spec_sum(s) == clue[start - 1] + spec_sum(clue.skip(start)));
    }
}

} // verus!
