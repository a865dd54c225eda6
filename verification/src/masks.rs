//! The mask builder and the combo filter: a combo set is reduced to the
//! per-cell intersection of its members, and a combo set is shrunk to the
//! members that agree with a mask's concrete cells.

use vstd::prelude::*;
use crate::cells::{lemma_views_push, views, Cell};

verus! {

/// The first `i` combos all agree with the first combo at position `j`.
pub open spec fn agree_upto(cs: Seq<Seq<Cell>>, i: int, j: int) -> bool {
    forall|k: int| 0 <= k < i ==> #[trigger] cs[k][j] == cs[0][j]
}

/// The per-cell intersection of a non-empty combo set: the common value
/// where every combo agrees, `Unknown` where any two disagree.
pub open spec fn mask_spec(cs: Seq<Seq<Cell>>) -> Seq<Cell>
    recommends
        cs.len() >= 1,
{
    Seq::new(
        cs[0].len(),
        |j: int|
            if agree_upto(cs, cs.len() as int, j) {
                cs[0][j]
            } else {
                Cell::Unknown
            },
    )
}

/// `combo` agrees with every concrete cell of `mask`; `Unknown` cells of
/// the mask impose no constraint.
pub open spec fn matches_mask(combo: Seq<Cell>, mask: Seq<Cell>) -> bool {
    forall|j: int| 0 <= j < mask.len()
        ==> mask[j] == Cell::Unknown || #[trigger] combo[j] == mask[j]
}

/// The combos of `cs` that agree with every concrete cell of `mask`, in
/// their original order.
pub open spec fn filter_spec(cs: Seq<Seq<Cell>>, mask: Seq<Cell>) -> Seq<Seq<Cell>> {
    cs.filter(|combo: Seq<Cell>| matches_mask(combo, mask))
}

/// The per-cell intersection of a non-empty combo set. A cell is concrete
/// exactly when every combo of the set holds the same value there.
pub fn create_mask(combos: &Vec<Vec<Cell>>) -> (mask: Vec<Cell>)
    requires
        combos@.len() >= 1,
        forall|k: int| 0 <= k < combos@.len()
            ==> (#[trigger] combos@[k]@).len() == combos@[0]@.len(),
    ensures
        mask@ == mask_spec(views(combos@)),
{
    let ghost cs = views(combos@);
    proof {
        assert forall|k: int| 0 <= k < cs.len() implies (#[trigger] cs[k]).len() == cs[0].len() by {
            assert(cs[k] == combos@[k]@);
            assert(cs[0] == combos@[0]@);
        }
    }
    let length = combos[0].len();
    let mut mask: Vec<Cell> = Vec::new();
    let mut j: usize = 0;
    while j < length
        invariant
            0 <= j <= length,
            combos@.len() >= 1,
            cs == views(combos@),
            length == cs[0].len(),
            mask@.len() == j,
            forall|jj: int| 0 <= jj < j ==> #[trigger] mask@[jj] == cs[0][jj],
        decreases length - j,
    {
        let cell = combos[0][j];
        proof {
            assert(cs[0] == combos@[0]@);
        }
        mask.push(cell);
        j = j + 1;
    }
    let mut i: usize = 1;
    while i < combos.len()
        invariant
            1 <= i <= combos@.len(),
            cs == views(combos@),
            cs.len() == combos@.len(),
            forall|k: int| 0 <= k < cs.len() ==> (#[trigger] cs[k]).len() == cs[0].len(),
            length == cs[0].len(),
            mask@.len() == length,
            forall|jj: int| 0 <= jj < length
                ==> #[trigger] mask@[jj] == (if agree_upto(cs, i as int, jj) {
                    cs[0][jj]
                } else {
                    Cell::Unknown
                }),
        decreases combos@.len() - i,
    {
        let mut jj: usize = 0;
        while jj < length
            invariant
                0 <= jj <= length,
                1 <= i < combos@.len(),
                cs == views(combos@),
                cs.len() == combos@.len(),
                forall|k: int| 0 <= k < cs.len() ==> (#[trigger] cs[k]).len() == cs[0].len(),
                length == cs[0].len(),
                mask@.len() == length,
                forall|p: int| 0 <= p < jj
                    ==> #[trigger] mask@[p] == (if agree_upto(cs, i + 1, p) {
                        cs[0][p]
                    } else {
                        Cell::Unknown
                    }),
                forall|p: int| jj <= p < length
                    ==> #[trigger] mask@[p] == (if agree_upto(cs, i as int, p) {
                        cs[0][p]
                    } else {
                        Cell::Unknown
                    }),
            decreases length - jj,
        {
            proof {
                assert(cs[i as int] == combos@[i as int]@);
            }
            if mask[jj] != combos[i][jj] {
                mask.set(jj, Cell::Unknown);
                proof {
                    assert(!agree_upto(cs, i + 1, jj as int)) by {
                        if agree_upto(cs, i as int, jj as int) {
                            assert(cs[i as int][jj as int] != cs[0][jj as int]);
                        } else {
                            let w = choose|k: int|
                                0 <= k < i && #[trigger] cs[k][jj as int] != cs[0][jj as int];
                            assert(cs[w][jj as int] != cs[0][jj as int]);
                        }
                    }
                }
            } else {
                proof {
                    if agree_upto(cs, i as int, jj as int) {
                        assert(cs[i as int][jj as int] == cs[0][jj as int]);
                        assert forall|k: int| 0 <= k < i + 1
                            implies #[trigger] cs[k][jj as int] == cs[0][jj as int] by {}
                    } else {
                        let w = choose|k: int|
                            0 <= k < i && #[trigger] cs[k][jj as int] != cs[0][jj as int];
                        assert(cs[w][jj as int] != cs[0][jj as int]);
                        assert(!agree_upto(cs, i + 1, jj as int));
                    }
                }
            }
            jj = jj + 1;
        }
        i = i + 1;
    }
    proof {
        assert(mask@ =~= mask_spec(cs));
    }
    mask
}

/// Whether one combo agrees with every concrete cell of `mask`.
fn combo_matches(combo: &Vec<Cell>, mask: &Vec<Cell>) -> (r: bool)
    requires
        combo@.len() == mask@.len(),
    ensures
        r == matches_mask(combo@, mask@),
{
    let mut j: usize = 0;
    while j < mask.len()
        invariant
            0 <= j <= mask@.len(),
            combo@.len() == mask@.len(),
            forall|p: int| 0 <= p < j
                ==> mask@[p] == Cell::Unknown || #[trigger] combo@[p] == mask@[p],
        decreases mask@.len() - j,
    {
        if mask[j] != Cell::Unknown && combo[j] != mask[j] {
            return false;
        }
        j = j + 1;
    }
    true
}

/// A fresh copy of one line.
pub(crate) fn clone_line(line: &Vec<Cell>) -> (copy: Vec<Cell>)
    ensures
        copy@ == line@,
{
    let mut copy: Vec<Cell> = Vec::new();
    let mut j: usize = 0;
    while j < line.len()
        invariant
            0 <= j <= line@.len(),
            copy@ == line@.take(j as int),
        decreases line@.len() - j,
    {
        copy.push(line[j]);
        proof {
            assert(copy@ =~= line@.take(j + 1 as int));
        }
        j = j + 1;
    }
    proof {
        assert(line@.take(line@.len() as int) =~= line@);
    }
    copy
}

/// One unfolding of the filter over an appended combo.
proof fn lemma_filter_spec_push(cs: Seq<Seq<Cell>>, c: Seq<Cell>, mask: Seq<Cell>)
    ensures
        matches_mask(c, mask) ==> filter_spec(cs.push(c), mask) == filter_spec(cs, mask).push(c),
        !matches_mask(c, mask) ==> filter_spec(cs.push(c), mask) == filter_spec(cs, mask),
{
    assert(cs.push(c).drop_last() =~= cs);
    assert(cs.push(c).last() == c);
    reveal(Seq::filter);
}

/// Keeps exactly the combos that agree with every concrete cell of
/// `mask`, in their original order: the executable form of `filter_spec`.
pub fn filter_with_mask(combos: &Vec<Vec<Cell>>, mask: &Vec<Cell>) -> (kept: Vec<Vec<Cell>>)
    requires
        forall|k: int| 0 <= k < combos@.len() ==> (#[trigger] combos@[k]@).len() == mask@.len(),
    ensures
        views(kept@) == filter_spec(views(combos@), mask@),
{
    let ghost cs = views(combos@);
    let mut kept: Vec<Vec<Cell>> = Vec::new();
    proof {
        assert(cs.take(0) =~= Seq::<Seq<Cell>>::empty());
        assert(views(kept@) =~= filter_spec(cs.take(0), mask@)) by {
            reveal(Seq::filter);
        }
    }
    let mut i: usize = 0;
    while i < combos.len()
        invariant
            0 <= i <= combos@.len(),
            cs == views(combos@),
            cs.len() == combos@.len(),
            forall|k: int| 0 <= k < combos@.len()
                ==> (#[trigger] combos@[k]@).len() == mask@.len(),
            views(kept@) == filter_spec(cs.take(i as int), mask@),
        decreases combos@.len() - i,
    {
        proof {
            assert(cs[i as int] == combos@[i as int]@);
        }
        if combo_matches(&combos[i], mask) {
            let line = clone_line(&combos[i]);
            let ghost prev = kept@;
            kept.push(line);
            proof {
                lemma_views_push(prev, line);
            }
        }
        proof {
            assert(cs.take(i + 1).drop_last() =~= cs.take(i as int));
            assert(cs.take(i + 1).last() == cs[i as int]);
            lemma_filter_spec_push(cs.take(i as int), cs[i as int], mask@);
            assert(cs.take(i + 1) == cs.take(i as int).push(cs[i as int])) by {
                assert(cs.take(i + 1) =~= cs.take(i as int).push(cs[i as int]));
            }
        }
        i = i + 1;
    }
    proof {
        assert(cs.take(cs.len() as int) =~= cs);
    }
    kept
}

/// Filtering shrinks: the result is a selection of members of the input,
/// each of which agrees with the mask, and it is never longer.
pub proof fn lemma_filter_subset(cs: Seq<Seq<Cell>>, mask: Seq<Cell>)
    ensures
        filter_spec(cs, mask).len() <= cs.len(),
        forall|k: int| 0 <= k < filter_spec(cs, mask).len()
            ==> cs.contains(#[trigger] filter_spec(cs, mask)[k])
                && matches_mask(filter_spec(cs, mask)[k], mask),
    decreases cs.len(),
{
    if cs.len() == 0 {
        reveal(Seq::filter);
    } else {
        let dl = cs.drop_last();
        lemma_filter_subset(dl, mask);
        assert(dl.push(cs.last()) =~= cs);
        lemma_filter_spec_push(dl, cs.last(), mask);
        assert forall|k: int| 0 <= k < filter_spec(cs, mask).len()
            implies cs.contains(#[trigger] filter_spec(cs, mask)[k])
                && matches_mask(filter_spec(cs, mask)[k], mask) by {
            if k < filter_spec(dl, mask).len() {
                assert(filter_spec(cs, mask)[k] == filter_spec(dl, mask)[k]);
                let w = choose|i: int| 0 <= i < dl.len() && dl[i] == filter_spec(dl, mask)[k];
                assert(cs[w] == filter_spec(cs, mask)[k]);
            } else {
                assert(filter_spec(cs, mask)[k] == cs.last());
                assert(cs[cs.len() - 1] == cs.last());
            }
        }
    }
}

/// A member of the set that agrees with the mask survives the filter.
pub proof fn lemma_filter_keeps(cs: Seq<Seq<Cell>>, mask: Seq<Cell>, x: Seq<Cell>)
    requires
        cs.contains(x),
        matches_mask(x, mask),
    ensures
        filter_spec(cs, mask).contains(x),
    decreases cs.len(),
{
    let dl = cs.drop_last();
    assert(dl.push(cs.last()) =~= cs);
    lemma_filter_spec_push(dl, cs.last(), mask);
    if x == cs.last() {
        assert(filter_spec(cs, mask).last() == x);
        assert(filter_spec(cs, mask)[filter_spec(cs, mask).len() - 1] == x);
    } else {
        let w = choose|i: int| 0 <= i < cs.len() && cs[i] == x;
        assert(dl[w] == x);
        lemma_filter_keeps(dl, mask, x);
        let v = choose|i: int|
            0 <= i < filter_spec(dl, mask).len() && filter_spec(dl, mask)[i] == x;
        assert(filter_spec(cs, mask)[v] == x);
    }
}

/// Filtering keeps everything when every member agrees with the mask.
pub proof fn lemma_filter_all(cs: Seq<Seq<Cell>>, mask: Seq<Cell>)
    requires
        forall|k: int| 0 <= k < cs.len() ==> matches_mask(#[trigger] cs[k], mask),
    ensures
        filter_spec(cs, mask) == cs,
    decreases cs.len(),
{
    if cs.len() == 0 {
        reveal(Seq::filter);
        assert(filter_spec(cs, mask) =~= cs);
    } else {
        let dl = cs.drop_last();
        assert forall|k: int| 0 <= k < dl.len()
            implies matches_mask(#[trigger] dl[k], mask) by {
            assert(dl[k] == cs[k]);
        }
        lemma_filter_all(dl, mask);
        assert(dl.push(cs.last()) =~= cs);
        lemma_filter_spec_push(dl, cs.last(), mask);
        assert(cs[cs.len() - 1] == cs.last());
        assert(filter_spec(cs, mask) == dl.push(cs.last()));
    }
}

/// Every member of a combo set agrees with the set's own intersection
/// mask: a concrete mask cell is a cell all members share.
pub proof fn lemma_members_match_own_mask(cs: Seq<Seq<Cell>>)
    requires
        cs.len() >= 1,
        forall|k: int| 0 <= k < cs.len() ==> (#[trigger] cs[k]).len() == cs[0].len(),
    ensures
        forall|k: int| 0 <= k < cs.len() ==> matches_mask(#[trigger] cs[k], mask_spec(cs)),
{
    let m = mask_spec(cs);
    assert forall|k: int| 0 <= k < cs.len() implies matches_mask(#[trigger] cs[k], m) by {
        assert forall|j: int| 0 <= j < m.len() && m[j] != Cell::Unknown
            implies cs[k][j] == m[j] by {
            assert(agree_upto(cs, cs.len() as int, j));
        }
    }
}

/// Filtering a combo set with the mask built from that same set removes
/// nothing: the mask's concrete cells are exactly where all members
/// already agree.
pub proof fn lemma_filter_self_mask(cs: Seq<Seq<Cell>>)
    requires
        cs.len() >= 1,
        forall|k: int| 0 <= k < cs.len() ==> (#[trigger] cs[k]).len() == cs[0].len(),
    ensures
        filter_spec(cs, mask_spec(cs)) == cs,
{
    lemma_members_match_own_mask(cs);
    lemma_filter_all(cs, mask_spec(cs));
}

/// The mask of a subset is at least as sharp: every cell the larger
/// set's mask pins down, the subset's mask pins down to the same value.
pub proof fn lemma_mask_refines(big: Seq<Seq<Cell>>, small: Seq<Seq<Cell>>)
    requires
        big.len() >= 1,
        small.len() >= 1,
        forall|k: int| 0 <= k < big.len() ==> (#[trigger] big[k]).len() == big[0].len(),
        forall|k: int| 0 <= k < small.len() ==> big.contains(#[trigger] small[k]),
    ensures
        mask_spec(small).len() == mask_spec(big).len(),
        forall|j: int| 0 <= j < mask_spec(big).len() && mask_spec(big)[j] != Cell::Unknown
            ==> mask_spec(small)[j] == mask_spec(big)[j],
{
    let w0 = choose|i: int| 0 <= i < big.len() && big[i] == small[0];
    assert(small[0].len() == big[0].len());
    assert forall|j: int| 0 <= j < mask_spec(big).len() && mask_spec(big)[j] != Cell::Unknown
        implies mask_spec(small)[j] == mask_spec(big)[j] by {
        assert(agree_upto(big, big.len() as int, j));
        assert forall|k: int| 0 <= k < small.len()
            implies #[trigger] small[k][j] == small[0][j] by {
            let w = choose|i: int| 0 <= i < big.len() && big[i] == small[k];
            assert(big[w][j] == big[0][j]);
            assert(big[w0][j] == big[0][j]);
        }
        assert(agree_upto(small, small.len() as int, j));
        assert(big[w0][j] == big[0][j]);
    }
}

/// A non-empty set whose members all agree with a mask keeps every
/// concrete cell of that mask in its own intersection mask.
pub proof fn lemma_mask_of_matching(cs: Seq<Seq<Cell>>, m: Seq<Cell>)
    requires
        cs.len() >= 1,
        forall|k: int| 0 <= k < cs.len() ==> (#[trigger] cs[k]).len() == cs[0].len(),
        cs[0].len() == m.len(),
        forall|k: int| 0 <= k < cs.len() ==> matches_mask(#[trigger] cs[k], m),
    ensures
        mask_spec(cs).len() == m.len(),
        forall|j: int| 0 <= j < m.len() && m[j] != Cell::Unknown ==> mask_spec(cs)[j] == m[j],
{
    assert forall|j: int| 0 <= j < m.len() && m[j] != Cell::Unknown
        implies mask_spec(cs)[j] == m[j] by {
        assert forall|k: int| 0 <= k < cs.len() implies #[trigger] cs[k][j] == cs[0][j] by {
            assert(cs[k][j] == m[j]);
            assert(cs[0][j] == m[j]);
        }
        assert(agree_upto(cs, cs.len() as int, j));
    }
}

/// Filtering by a refinement of an earlier mask absorbs the earlier
/// filter: a combo that agrees with the sharper mask agrees with the
/// coarser one, so filtering twice keeps exactly what filtering once by
/// the sharper mask keeps.
pub proof fn lemma_filter_refine_absorb(cs: Seq<Seq<Cell>>, a: Seq<Cell>, b: Seq<Cell>)
    requires
        line_refines(a, b),
    ensures
        filter_spec(filter_spec(cs, a), b) == filter_spec(cs, b),
    decreases cs.len(),
{
    if cs.len() == 0 {
        reveal(Seq::filter);
        assert(filter_spec(filter_spec(cs, a), b) =~= filter_spec(cs, b));
    } else {
        let dl = cs.drop_last();
        let last = cs.last();
        lemma_filter_refine_absorb(dl, a, b);
        assert(dl.push(last) =~= cs);
        lemma_filter_spec_push(dl, last, a);
        lemma_filter_spec_push(dl, last, b);
        if matches_mask(last, b) {
            assert(matches_mask(last, a)) by {
                assert forall|j: int| 0 <= j < a.len() && a[j] != Cell::Unknown
                    implies last[j] == a[j] by {
                    assert(b[j] == a[j]);
                }
            }
            assert(filter_spec(cs, a) == filter_spec(dl, a).push(last));
            lemma_filter_spec_push(filter_spec(dl, a), last, b);
        } else {
            if matches_mask(last, a) {
                assert(filter_spec(cs, a) == filter_spec(dl, a).push(last));
                lemma_filter_spec_push(filter_spec(dl, a), last, b);
            } else {
                assert(filter_spec(cs, a) == filter_spec(dl, a));
            }
        }
    }
}

/// How many cells of a line are still `Unknown`.
pub open spec fn unknown_count(s: Seq<Cell>) -> int
    decreases s.len(),
{
    if s.len() == 0 {
        0
    } else {
        unknown_count(s.drop_last()) + if s.last() == Cell::Unknown {
            1int
        } else {
            0int
        }
    }
}

/// `b` refines `a`: same length, and every concrete cell of `a` is kept.
pub open spec fn line_refines(a: Seq<Cell>, b: Seq<Cell>) -> bool {
    &&& a.len() == b.len()
    &&& forall|j: int| 0 <= j < a.len() && a[j] != Cell::Unknown ==> #[trigger] b[j] == a[j]
}

pub proof fn lemma_unknown_count_bounds(s: Seq<Cell>)
    ensures
        0 <= unknown_count(s) <= s.len(),
    decreases s.len(),
{
    if s.len() > 0 {
        lemma_unknown_count_bounds(s.drop_last());
    }
}

/// A line with an unknown cell has a positive unknown count.
pub proof fn lemma_unknown_count_pos(s: Seq<Cell>, j: int)
    requires
        0 <= j < s.len(),
        s[j] == Cell::Unknown,
    ensures
        unknown_count(s) >= 1,
    decreases s.len(),
{
    lemma_unknown_count_bounds(s.drop_last());
    if j < s.len() - 1 {
        assert(s.drop_last()[j] == s[j]);
        lemma_unknown_count_pos(s.drop_last(), j);
    }
}

/// Refinement never raises the number of unknown cells, and strictly
/// lowers it when some cell becomes concrete.
pub proof fn lemma_refines_count(a: Seq<Cell>, b: Seq<Cell>)
    requires
        line_refines(a, b),
    ensures
        unknown_count(b) <= unknown_count(a),
        (exists|j: int| 0 <= j < a.len() && a[j] == Cell::Unknown && #[trigger] b[j] != Cell::Unknown)
            ==> unknown_count(b) < unknown_count(a),
    decreases a.len(),
{
    if a.len() == 0 {
    } else {
        let ad = a.drop_last();
        let bd = b.drop_last();
        assert(line_refines(ad, bd)) by {
            assert forall|j: int| 0 <= j < ad.len() && ad[j] != Cell::Unknown
                implies #[trigger] bd[j] == ad[j] by {
                assert(a[j] == ad[j]);
                assert(b[j] == bd[j]);
            }
        }
        lemma_refines_count(ad, bd);
        if exists|j: int|
            0 <= j < a.len() && a[j] == Cell::Unknown && #[trigger] b[j] != Cell::Unknown {
            let w = choose|j: int|
                0 <= j < a.len() && a[j] == Cell::Unknown && #[trigger] b[j] != Cell::Unknown;
            if w == a.len() - 1 {
                assert(a.last() == Cell::Unknown);
                assert(b.last() != Cell::Unknown);
            } else {
                assert(ad[w] == a[w] && bd[w] == b[w]);
                assert(unknown_count(bd) < unknown_count(ad));
            }
        }
    }
}

} // verus!
