//! Region size filtering: count the pixels of every label and build a
//! binary mask marking each pixel whose region is strictly larger than
//! `upper` or strictly smaller than `lower`.  A region whose count equals a
//! bound is retained; label 0 (the background component) is never marked.
//! `lower == 0` disables tiny-region removal.

use vstd::prelude::*;
use crate::grid::Grid;

verus! {

/// Number of occurrences of `l` in `s`.
pub open spec fn count_eq(s: Seq<usize>, l: usize) -> int
    decreases s.len(),
{
    if s.len() == 0 {
        0
    } else {
        count_eq(s.drop_last(), l) + (if s.last() == l {
            1int
        } else {
            0int
        })
    }
}

/// A pixel of label `l` is removed exactly when `l` is a foreground label
/// whose region size falls strictly outside `[lower, upper]`.
pub open spec fn spec_removed(labels: Seq<usize>, l: usize, lower: usize, upper: usize) -> bool {
    l != 0 && (count_eq(labels, l) > upper || count_eq(labels, l) < lower)
}

pub proof fn lemma_count_eq_bounds(s: Seq<usize>, l: usize)
    ensures
        0 <= count_eq(s, l) <= s.len(),
    decreases s.len(),
{
    if s.len() > 0 {
        lemma_count_eq_bounds(s.drop_last(), l);
    }
}

/// Updating one cell moves at most one unit of count between the old and
/// the new value.
pub proof fn lemma_count_eq_update(s: Seq<usize>, j: int, v: usize, l: usize)
    requires
        0 <= j < s.len(),
    ensures
        count_eq(s.update(j, v), l) == count_eq(s, l) - (if s[j] == l {
            1int
        } else {
            0int
        }) + (if v == l {
            1int
        } else {
            0int
        }),
    decreases s.len(),
{
    if j == s.len() - 1 {
        assert(s.update(j, v).drop_last() =~= s.drop_last());
        assert(s.update(j, v).last() == v);
    } else {
        lemma_count_eq_update(s.drop_last(), j, v, l);
        assert(s.update(j, v).drop_last() =~= s.drop_last().update(j, v));
        assert(s.update(j, v).last() == s.last());
    }
}

proof fn lemma_count_eq_take_step(s: Seq<usize>, i: int, l: usize)
    requires
        0 <= i < s.len(),
    ensures
        count_eq(s.take(i + 1), l) == count_eq(s.take(i), l) + (if s[i] == l {
            1int
        } else {
            0int
        }),
{
    assert(s.take(i + 1).drop_last() =~= s.take(i));
    assert(s.take(i + 1).last() == s[i]);
}

/// Pixel count of every label: entry `l` of the result is the number of
/// cells of `labels` holding `l`.
pub fn label_counts(labels: &Grid<usize>, label_count: usize) -> (counts: Vec<usize>)
    requires
        labels.wf(),
        label_count < usize::MAX,
        forall|i: int| 0 <= i < labels.cells.len() ==> labels.cells[i] <= label_count,
    ensures
        counts.len() == label_count + 1,
        forall|l: usize| l <= label_count ==> counts[l as int] == count_eq(labels.cells@, l),
{
    let mut counts: Vec<usize> = Vec::new();
    let mut l: usize = 0;
    while l < label_count + 1
        invariant
            l <= label_count + 1,
            counts.len() == l,
            forall|j: int| 0 <= j < l ==> counts[j] == 0,
        decreases label_count + 1 - l,
    {
        counts.push(0);
        l = l + 1;
    }
    let mut i: usize = 0;
    let n: usize = labels.cells.len();
    while i < n
        invariant
            i <= n,
            counts.len() == label_count + 1,
            forall|l: usize|
                l <= label_count ==> counts[l as int] == count_eq(labels.cells@.take(i as int), l),
        decreases n - i,
    {
        let v: usize = labels.cells[i];
        proof {
            lemma_count_eq_bounds(labels.cells@.take(i as int), v);
            assert(labels.cells@.take(i as int).len() == i);
            assert forall|l: usize| l <= label_count implies count_eq(
                labels.cells@.take(i as int + 1),
                l,
            ) == count_eq(labels.cells@.take(i as int), l) + (if labels.cells@[i as int] == l {
                1int
            } else {
                0int
            }) by {
                lemma_count_eq_take_step(labels.cells@, i as int, l);
            }
        }
        counts[v] = counts[v] + 1;
        i = i + 1;
    }
    proof {
        assert(labels.cells@.take(n as int) =~= labels.cells@);
    }
    counts
}

/// Builds the removal mask for a label buffer: cells whose label is
/// removed under the size bounds get `active_bit`, all others
/// `inactive_bit`.
pub fn removal_mask(
    labels: &Grid<usize>,
    label_count: usize,
    lower: usize,
    upper: usize,
    active_bit: u8,
    inactive_bit: u8,
) -> (mask: Grid<u8>)
    requires
        labels.wf(),
        label_count < usize::MAX,
        forall|i: int| 0 <= i < labels.cells.len() ==> labels.cells[i] <= label_count,
    ensures
        mask.wf(),
        mask.same_dims(*labels),
        forall|i: int|
            0 <= i < mask.cells.len() ==> mask.cells[i] == (if spec_removed(
                labels.cells@,
                labels.cells[i],
                lower,
                upper,
            ) {
                active_bit
            } else {
                inactive_bit
            }),
{
    let counts = label_counts(labels, label_count);
    let mut cells: Vec<u8> = Vec::new();
    let mut i: usize = 0;
    let n: usize = labels.cells.len();
    while i < n
        invariant
            i <= n,
            cells.len() == i,
            forall|j: int|
                0 <= j < i ==> cells[j] == (if spec_removed(
                    labels.cells@,
                    labels.cells[j],
                    lower,
                    upper,
                ) {
                    active_bit
                } else {
                    inactive_bit
                }),
        decreases n - i,
    {
        let l: usize = labels.cells[i];
        let c: usize = counts[l];
        if l != 0 && (c > upper || c < lower) {
            cells.push(active_bit);
        } else {
            cells.push(inactive_bit);
        }
        i = i + 1;
    }
    Grid { width: labels.width, height: labels.height, cells }
}

} // verus!
