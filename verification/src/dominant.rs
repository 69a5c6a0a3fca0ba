//! Dominant-color extraction: quantize every pixel's color channels by a
//! tolerance divisor, count each bucket with the buckets kept in
//! first-encountered order, and return the most frequent buckets sorted by
//! count descending, ties broken by first-encountered order.  The result
//! is deterministic: the sort key (count, first-encountered position) is a
//! strict total order.

use vstd::prelude::*;
use vstd::arithmetic::div_mod::lemma_fundamental_div_mod;
use vstd::arithmetic::div_mod::lemma_mod_division_less_than_divisor;
use crate::pixel::Rgba;
use crate::grid::Grid;
use crate::error::PipelineError;

verus! {

/// One channel quantized: rounded down to a multiple of the tolerance.
pub open spec fn spec_quantize(c: u8, t: u8) -> u8 {
    ((((c as int) / (t as int)) * (t as int)) as u8)
}

/// The bucket key of a pixel: each color channel quantized, alpha forced
/// to fully opaque.
pub open spec fn spec_bucket_key(p: Rgba, t: u8) -> Rgba {
    Rgba { r: spec_quantize(p.r, t), g: spec_quantize(p.g, t), b: spec_quantize(p.b, t), a: 255 }
}

fn quantize(c: u8, t: u8) -> (q: u8)
    requires
        t >= 1,
    ensures
        q == spec_quantize(c, t),
{
    proof {
        lemma_fundamental_div_mod(c as int, t as int);
        lemma_mod_division_less_than_divisor(c as int, t as int);
        assert(((c as int) / (t as int)) * (t as int) <= c as int) by (nonlinear_arith)
            requires
                c as int == (t as int) * ((c as int) / (t as int)) + (c as int) % (t as int),
                0 <= (c as int) % (t as int),
        ;
    }
    (c / t) * t
}

/// The key color a pixel is counted under.
pub fn find_color_key(p: &Rgba, tolerance: u8) -> (k: Rgba)
    requires
        tolerance >= 1,
    ensures
        k == spec_bucket_key(*p, tolerance),
{
    Rgba {
        r: quantize(p.r, tolerance),
        g: quantize(p.g, tolerance),
        b: quantize(p.b, tolerance),
        a: 255,
    }
}

/// Index of the first entry keyed `k`, or -1 when no entry is.
pub open spec fn spec_find_bucket(tal: Seq<(Rgba, int)>, k: Rgba) -> int
    decreases tal.len(),
{
    if tal.len() == 0 {
        -1
    } else if tal[0].0 == k {
        0
    } else {
        let rest = spec_find_bucket(tal.drop_first(), k);
        if rest == -1 {
            -1
        } else {
            rest + 1
        }
    }
}

pub proof fn lemma_find_bucket_props(tal: Seq<(Rgba, int)>, k: Rgba)
    ensures
        spec_find_bucket(tal, k) == -1 ==> forall|j: int| 0 <= j < tal.len() ==> tal[j].0 != k,
        spec_find_bucket(tal, k) != -1 ==> 0 <= spec_find_bucket(tal, k) < tal.len() && tal[
            spec_find_bucket(tal, k)
        ].0 == k && forall|j: int| 0 <= j < spec_find_bucket(tal, k) ==> tal[j].0 != k,
    decreases tal.len(),
{
    if tal.len() > 0 && tal[0].0 != k {
        lemma_find_bucket_props(tal.drop_first(), k);
        let rest = spec_find_bucket(tal.drop_first(), k);
        if rest == -1 {
            assert forall|j: int| 0 <= j < tal.len() implies tal[j].0 != k by {
                if j >= 1 {
                    assert(tal.drop_first()[j - 1] == tal[j]);
                }
            }
        } else {
            assert(tal.drop_first()[rest] == tal[rest + 1]);
            assert forall|j: int| 0 <= j < rest + 1 implies tal[j].0 != k by {
                if j >= 1 {
                    assert(tal.drop_first()[j - 1] == tal[j]);
                }
            }
        }
    }
}

/// One pixel keyed `k` added to the tally: the first entry with that key
/// is incremented, or a fresh entry is appended.
pub open spec fn spec_tally_push(tal: Seq<(Rgba, int)>, k: Rgba) -> Seq<(Rgba, int)> {
    let idx = spec_find_bucket(tal, k);
    if idx == -1 {
        tal.push((k, 1))
    } else {
        tal.update(idx, (k, tal[idx].1 + 1))
    }
}

/// Bucket tally of a pixel sequence, buckets in first-encountered order.
pub open spec fn spec_tally(pixels: Seq<Rgba>, t: u8) -> Seq<(Rgba, int)>
    decreases pixels.len(),
{
    if pixels.len() == 0 {
        Seq::empty()
    } else {
        spec_tally_push(spec_tally(pixels.drop_last(), t), spec_bucket_key(pixels.last(), t))
    }
}

/// Every tally count is at least 1 and at most the number of pixels.
pub proof fn lemma_tally_counts(pixels: Seq<Rgba>, t: u8)
    ensures
        forall|j: int|
            0 <= j < spec_tally(pixels, t).len() ==> 1 <= (#[trigger] spec_tally(pixels, t)[j]).1
                <= pixels.len(),
        spec_tally(pixels, t).len() <= pixels.len(),
    decreases pixels.len(),
{
    if pixels.len() > 0 {
        lemma_tally_counts(pixels.drop_last(), t);
        lemma_find_bucket_props(
            spec_tally(pixels.drop_last(), t),
            spec_bucket_key(pixels.last(), t),
        );
    }
}

/// The exec tally as its mathematical value.
pub open spec fn view_pairs(s: Seq<(Rgba, usize)>) -> Seq<(Rgba, int)> {
    Seq::new(s.len(), |i: int| (s[i].0, s[i].1 as int))
}

fn find_bucket(buckets: &Vec<(Rgba, usize)>, k: Rgba) -> (found: Option<usize>)
    ensures
        found is None ==> spec_find_bucket(view_pairs(buckets@), k) == -1,
        found matches Some(ix) ==> ix < buckets.len() && spec_find_bucket(view_pairs(buckets@), k)
            == ix,
{
    let mut i: usize = 0;
    let n = buckets.len();
    while i < n
        invariant
            i <= n,
            n == buckets.len(),
            forall|j: int| 0 <= j < i ==> buckets[j].0 != k,
        decreases n - i,
    {
        if buckets[i].0 == k {
            proof {
                lemma_find_bucket_props(view_pairs(buckets@), k);
                let s = spec_find_bucket(view_pairs(buckets@), k);
                if s == -1 {
                    assert(view_pairs(buckets@)[i as int].0 == k);
                    assert(false);
                }
                if s < i {
                    assert(buckets[s].0 != k);
                    assert(view_pairs(buckets@)[s].0 == k);
                    assert(false);
                }
                if s > i {
                    assert(view_pairs(buckets@)[i as int].0 != k);
                    assert(false);
                }
            }
            return Some(i);
        }
        i = i + 1;
    }
    proof {
        lemma_find_bucket_props(view_pairs(buckets@), k);
        let s = spec_find_bucket(view_pairs(buckets@), k);
        if s != -1 {
            assert(buckets[s].0 != k);
            assert(view_pairs(buckets@)[s].0 == k);
            assert(false);
        }
    }
    None
}

/// Counts the pixels of `img` under their bucket keys, buckets kept in
/// first-encountered order.
fn tally_colors(img: &Grid<Rgba>, tolerance: u8) -> (buckets: Vec<(Rgba, usize)>)
    requires
        img.wf(),
        tolerance >= 1,
    ensures
        view_pairs(buckets@) == spec_tally(img.cells@, tolerance),
{
    let mut buckets: Vec<(Rgba, usize)> = Vec::new();
    let mut i: usize = 0;
    let n = img.cells.len();
    proof {
        assert(view_pairs(buckets@) =~= spec_tally(img.cells@.take(0), tolerance));
    }
    while i < n
        invariant
            i <= n,
            n == img.cells.len(),
            view_pairs(buckets@) == spec_tally(img.cells@.take(i as int), tolerance),
        decreases n - i,
    {
        let k = find_color_key(&img.cells[i], tolerance);
        let ghost pre = buckets@;
        proof {
            assert(img.cells@.take(i as int + 1).drop_last() =~= img.cells@.take(i as int));
            assert(img.cells@.take(i as int + 1).last() == img.cells@[i as int]);
            lemma_tally_counts(img.cells@.take(i as int), tolerance);
        }
        match find_bucket(&buckets, k) {
            Some(ix) => {
                let c = buckets[ix].1;
                proof {
                    assert(view_pairs(pre)[ix as int].1 == c);
                    assert(view_pairs(pre)[ix as int].1 <= i);
                }
                buckets[ix] = (k, c + 1);
                proof {
                    assert(view_pairs(buckets@) =~= spec_tally_push(view_pairs(pre), k));
                }
            },
            None => {
                buckets.push((k, 1));
                proof {
                    assert(view_pairs(buckets@) =~= spec_tally_push(view_pairs(pre), k));
                }
            },
        }
        i = i + 1;
    }
    proof {
        assert(img.cells@.take(n as int) =~= img.cells@);
    }
    buckets
}

/// The ranking order: higher count first, ties to the entry encountered
/// first.
pub open spec fn beats(a: (Rgba, int, int), b: (Rgba, int, int)) -> bool {
    a.1 > b.1 || (a.1 == b.1 && a.2 < b.2)
}

/// Insertion into a ranked sequence: `e` goes in front of the first entry
/// it beats.
pub open spec fn spec_ranked_insert(s: Seq<(Rgba, int, int)>, e: (Rgba, int, int)) -> Seq<
    (Rgba, int, int),
>
    decreases s.len(),
{
    if s.len() == 0 {
        seq![e]
    } else if beats(e, s[0]) {
        seq![e] + s
    } else {
        seq![s[0]] + spec_ranked_insert(s.drop_first(), e)
    }
}

/// The tally entries ranked: insertion sort under `beats`.
pub open spec fn spec_rank(s: Seq<(Rgba, int, int)>) -> Seq<(Rgba, int, int)>
    decreases s.len(),
{
    if s.len() == 0 {
        Seq::empty()
    } else {
        spec_ranked_insert(spec_rank(s.drop_last()), s.last())
    }
}

proof fn lemma_ranked_insert_at(s: Seq<(Rgba, int, int)>, e: (Rgba, int, int), idx: int)
    requires
        0 <= idx <= s.len(),
        forall|j: int| 0 <= j < idx ==> !beats(e, s[j]),
        idx < s.len() ==> beats(e, s[idx]),
    ensures
        spec_ranked_insert(s, e) == s.take(idx) + seq![e] + s.skip(idx),
    decreases s.len(),
{
    if s.len() == 0 {
        assert(spec_ranked_insert(s, e) =~= s.take(0) + seq![e] + s.skip(0));
    } else if beats(e, s[0]) {
        assert(idx == 0);
        assert(spec_ranked_insert(s, e) =~= s.take(0) + seq![e] + s.skip(0));
    } else {
        assert(idx >= 1);
        assert(forall|j: int|
            0 <= j < idx - 1 ==> s.drop_first()[j] == s[j + 1] && !beats(e, s.drop_first()[j]));
        lemma_ranked_insert_at(s.drop_first(), e, idx - 1);
        assert(seq![s[0]] + (s.drop_first().take(idx - 1) + seq![e] + s.drop_first().skip(idx - 1))
            =~= s.take(idx) + seq![e] + s.skip(idx));
    }
}

/// The exec triples as their mathematical value.
pub open spec fn view_triples(s: Seq<(Rgba, usize, usize)>) -> Seq<(Rgba, int, int)> {
    Seq::new(s.len(), |i: int| (s[i].0, s[i].1 as int, s[i].2 as int))
}

fn ranked_insert(out: &mut Vec<(Rgba, usize, usize)>, e: (Rgba, usize, usize))
    ensures
        view_triples(final(out)@) == spec_ranked_insert(
            view_triples(old(out)@),
            (e.0, e.1 as int, e.2 as int),
        ),
{
    let ghost se = (e.0, e.1 as int, e.2 as int);
    let ghost s = view_triples(out@);
    let mut idx: usize = 0;
    let n = out.len();
    while idx < n && !(e.1 > out[idx].1 || (e.1 == out[idx].1 && e.2 < out[idx].2))
        invariant
            idx <= n,
            n == out.len(),
            out@ == old(out)@,
            forall|j: int| 0 <= j < idx ==> !beats(se, view_triples(out@)[j]),
        decreases n - idx,
    {
        idx = idx + 1;
    }
    proof {
        lemma_ranked_insert_at(s, se, idx as int);
    }
    out.insert(idx, e);
    proof {
        assert(view_triples(out@) =~= s.take(idx as int) + seq![se] + s.skip(idx as int));
    }
}

/// Ranks the tally entries, carrying each entry's first-encountered
/// position as the tie-break key.
fn rank_buckets(buckets: &Vec<(Rgba, usize)>) -> (ranked: Vec<(Rgba, usize, usize)>)
    ensures
        view_triples(ranked@) == spec_rank(
            Seq::new(
                buckets@.len(),
                |i: int| (buckets@[i].0, buckets@[i].1 as int, i),
            ),
        ),
{
    let ghost full = Seq::new(
        buckets@.len(),
        |i: int| (buckets@[i].0, buckets@[i].1 as int, i),
    );
    let mut ranked: Vec<(Rgba, usize, usize)> = Vec::new();
    let mut i: usize = 0;
    let n = buckets.len();
    proof {
        assert(view_triples(ranked@) =~= spec_rank(full.take(0)));
    }
    while i < n
        invariant
            i <= n,
            n == buckets.len(),
            view_triples(ranked@) == spec_rank(full.take(i as int)),
        decreases n - i,
    {
        let entry = buckets[i];
        proof {
            assert(full.take(i as int + 1).drop_last() =~= full.take(i as int));
            assert(full.take(i as int + 1).last() == full[i as int]);
        }
        ranked_insert(&mut ranked, (entry.0, entry.1, i));
        i = i + 1;
    }
    proof {
        assert(full.take(n as int) =~= full);
    }
    ranked
}

/// Counts never increase along a ranked sequence.
pub open spec fn count_sorted(s: Seq<(Rgba, int, int)>) -> bool {
    forall|i: int, j: int| 0 <= i < j < s.len() ==> (#[trigger] s[i]).1 >= (#[trigger] s[j]).1
}

proof fn lemma_ranked_insert_elems(s: Seq<(Rgba, int, int)>, e: (Rgba, int, int))
    ensures
        spec_ranked_insert(s, e).len() == s.len() + 1,
        forall|k: int|
            0 <= k < spec_ranked_insert(s, e).len() ==> (#[trigger] spec_ranked_insert(s, e)[k])
                == e || s.contains(spec_ranked_insert(s, e)[k]),
    decreases s.len(),
{
    if s.len() == 0 {
    } else if beats(e, s[0]) {
        assert forall|k: int| 0 <= k < spec_ranked_insert(s, e).len() implies (
        #[trigger] spec_ranked_insert(s, e)[k]) == e || s.contains(spec_ranked_insert(s, e)[k]) by {
            if k >= 1 {
                assert(spec_ranked_insert(s, e)[k] == s[k - 1]);
            }
        }
    } else {
        lemma_ranked_insert_elems(s.drop_first(), e);
        let rest = spec_ranked_insert(s.drop_first(), e);
        assert forall|k: int| 0 <= k < spec_ranked_insert(s, e).len() implies (
        #[trigger] spec_ranked_insert(s, e)[k]) == e || s.contains(spec_ranked_insert(s, e)[k]) by {
            if k == 0 {
                assert(spec_ranked_insert(s, e)[0] == s[0]);
            } else {
                assert(spec_ranked_insert(s, e)[k] == rest[k - 1]);
                if rest[k - 1] != e {
                    let j = choose|j: int| 0 <= j < s.drop_first().len() && s.drop_first()[j]
                        == rest[k - 1];
                    assert(s[j + 1] == rest[k - 1]);
                }
            }
        }
    }
}

proof fn lemma_ranked_insert_sorted(s: Seq<(Rgba, int, int)>, e: (Rgba, int, int))
    requires
        count_sorted(s),
    ensures
        count_sorted(spec_ranked_insert(s, e)),
    decreases s.len(),
{
    let out = spec_ranked_insert(s, e);
    if s.len() == 0 {
    } else if beats(e, s[0]) {
        assert forall|i: int, j: int| 0 <= i < j < out.len() implies (#[trigger] out[i]).1 >= (
        #[trigger] out[j]).1 by {
            assert(out[j] == s[j - 1]);
            if i >= 1 {
                assert(out[i] == s[i - 1]);
            }
        }
    } else {
        assert(count_sorted(s.drop_first())) by {
            assert forall|i: int, j: int| 0 <= i < j < s.drop_first().len() implies (
            #[trigger] s.drop_first()[i]).1 >= (#[trigger] s.drop_first()[j]).1 by {
                assert(s.drop_first()[i] == s[i + 1]);
                assert(s.drop_first()[j] == s[j + 1]);
            }
        }
        lemma_ranked_insert_sorted(s.drop_first(), e);
        lemma_ranked_insert_elems(s.drop_first(), e);
        let rest = spec_ranked_insert(s.drop_first(), e);
        assert forall|i: int, j: int| 0 <= i < j < out.len() implies (#[trigger] out[i]).1 >= (
        #[trigger] out[j]).1 by {
            assert(out[j] == rest[j - 1]);
            if i >= 1 {
                assert(out[i] == rest[i - 1]);
            } else {
                // The head bounds everything inserted behind it.
                if rest[j - 1] == e {
                    assert(out[0].1 >= e.1);
                } else {
                    let m = choose|m: int| 0 <= m < s.drop_first().len() && s.drop_first()[m]
                        == rest[j - 1];
                    assert(s[m + 1] == rest[j - 1]);
                }
            }
        }
    }
}

proof fn lemma_ranked_insert_multiset(s: Seq<(Rgba, int, int)>, e: (Rgba, int, int))
    ensures
        spec_ranked_insert(s, e).to_multiset() == s.to_multiset().insert(e),
    decreases s.len(),
{
    broadcast use vstd::seq_lib::group_to_multiset_ensures;
    broadcast use vstd::multiset::group_multiset_axioms;

    if s.len() == 0 {
        assert(spec_ranked_insert(s, e) =~= s.push(e));
    } else if beats(e, s[0]) {
        assert(seq![e] + s =~= s.insert(0, e));
        vstd::seq_lib::to_multiset_insert(s, 0, e);
    } else {
        lemma_ranked_insert_multiset(s.drop_first(), e);
        let rest = spec_ranked_insert(s.drop_first(), e);
        assert(seq![s[0]] + rest =~= rest.insert(0, s[0]));
        vstd::seq_lib::to_multiset_insert(rest, 0, s[0]);
        assert(s =~= s.drop_first().insert(0, s[0]));
        vstd::seq_lib::to_multiset_insert(s.drop_first(), 0, s[0]);
        assert(s.drop_first().to_multiset().insert(e).insert(s[0])
            =~= s.drop_first().to_multiset().insert(s[0]).insert(e));
    }
}

/// The ranking is a rearrangement of the tally: no entry appears, drops
/// out, or changes its count on the way through the sort.
pub proof fn lemma_rank_multiset(s: Seq<(Rgba, int, int)>)
    ensures
        spec_rank(s).to_multiset() == s.to_multiset(),
    decreases s.len(),
{
    broadcast use vstd::seq_lib::group_to_multiset_ensures;

    if s.len() > 0 {
        lemma_rank_multiset(s.drop_last());
        lemma_ranked_insert_multiset(spec_rank(s.drop_last()), s.last());
        assert(s =~= s.drop_last().push(s.last()));
    }
}

/// The ranking really is sorted: along the ranked tally, bucket counts
/// never increase.
pub proof fn lemma_rank_count_sorted(s: Seq<(Rgba, int, int)>)
    ensures
        count_sorted(spec_rank(s)),
    decreases s.len(),
{
    if s.len() > 0 {
        lemma_rank_count_sorted(s.drop_last());
        lemma_ranked_insert_sorted(spec_rank(s.drop_last()), s.last());
    }
}

/// The buckets that dominant-color extraction returns come sorted by
/// count, most frequent first.
pub proof fn lemma_most_color_sorted(pixels: Seq<Rgba>, t: u8, n: int)
    requires
        n >= 0,
    ensures
        forall|i: int, j: int|
            0 <= i < j < spec_most_color(pixels, t, n).len() ==> (#[trigger] spec_most_color(
                pixels,
                t,
                n,
            )[i]).1 >= (#[trigger] spec_most_color(pixels, t, n)[j]).1,
{
    let tal = spec_tally(pixels, t);
    let full = Seq::new(tal.len(), |i: int| (tal[i].0, tal[i].1, i));
    lemma_rank_count_sorted(full);
    let ranked = spec_rank(full);
    let cut = if n <= ranked.len() {
        ranked.take(n)
    } else {
        ranked
    };
    assert forall|i: int, j: int|
        0 <= i < j < spec_most_color(pixels, t, n).len() implies (#[trigger] spec_most_color(
        pixels,
        t,
        n,
    )[i]).1 >= (#[trigger] spec_most_color(pixels, t, n)[j]).1 by {
        assert(spec_most_color(pixels, t, n)[i] == (cut[i].0, cut[i].1));
        assert(spec_most_color(pixels, t, n)[j] == (cut[j].0, cut[j].1));
        assert(cut[i] == ranked[i]);
        assert(cut[j] == ranked[j]);
        assert(ranked[i].1 >= ranked[j].1);
    }
}

/// The returned buckets are the most frequent ones: a tally bucket that
/// is not among them counts no more than any bucket that is.
pub proof fn lemma_most_color_top(pixels: Seq<Rgba>, t: u8, n: int)
    requires
        n >= 0,
    ensures
        forall|i: int, j: int|
            0 <= i < spec_most_color(pixels, t, n).len() && 0 <= j < spec_tally(pixels, t).len()
                && !spec_most_color(pixels, t, n).contains(
                ((#[trigger] spec_tally(pixels, t)[j]).0, spec_tally(pixels, t)[j].1),
            ) ==> spec_tally(pixels, t)[j].1 <= (#[trigger] spec_most_color(pixels, t, n)[i]).1,
{
    broadcast use vstd::seq_lib::group_to_multiset_ensures;

    let tal = spec_tally(pixels, t);
    let full = Seq::new(tal.len(), |i: int| (tal[i].0, tal[i].1, i));
    let ranked = spec_rank(full);
    let res = spec_most_color(pixels, t, n);
    lemma_rank_count_sorted(full);
    lemma_rank_multiset(full);
    assert forall|i: int, j: int|
        0 <= i < res.len() && 0 <= j < tal.len() && !res.contains(
            ((#[trigger] tal[j]).0, tal[j].1),
        ) implies tal[j].1 <= (#[trigger] res[i]).1 by {
        assert(full[j] == (tal[j].0, tal[j].1, j));
        assert(full.contains(full[j]));
        assert(full.to_multiset().count(full[j]) > 0);
        assert(ranked.to_multiset().count(full[j]) > 0);
        assert(ranked.contains(full[j]));
        let k = choose|k: int| 0 <= k < ranked.len() && ranked[k] == full[j];
        let cut = if n <= ranked.len() {
            ranked.take(n)
        } else {
            ranked
        };
        if k < res.len() {
            assert(cut[k] == ranked[k]);
            assert(res[k] == (ranked[k].0, ranked[k].1));
            assert(res[k] == (tal[j].0, tal[j].1));
            assert(res.contains((tal[j].0, tal[j].1)));
            assert(false);
        } else {
            assert(cut[i] == ranked[i]);
            assert(res[i] == (ranked[i].0, ranked[i].1));
            assert(ranked[i].1 >= ranked[k].1);
        }
    }
}

/// What dominant-color extraction returns: the tally of `pixels` under
/// tolerance `t`, ranked by count descending with ties in
/// first-encountered order, cut to the first `n` entries, each entry a
/// bucket key with its count.
pub open spec fn spec_most_color(pixels: Seq<Rgba>, t: u8, n: int) -> Seq<(Rgba, int)> {
    let tal = spec_tally(pixels, t);
    let ranked = spec_rank(Seq::new(tal.len(), |i: int| (tal[i].0, tal[i].1, i)));
    let cut = if n <= ranked.len() {
        ranked.take(n)
    } else {
        ranked
    };
    Seq::new(cut.len(), |i: int| (cut[i].0, cut[i].1))
}

/// Buckets the colors of `img` by `tolerate_variance` and returns the
/// `count` most frequent buckets with their pixel counts, most frequent
/// first, ties in first-encountered order.  A zero tolerance is rejected.
pub fn most_color(img: &Grid<Rgba>, count: usize, tolerate_variance: u8) -> (r: Result<
    Vec<(Rgba, usize)>,
    PipelineError,
>)
    requires
        img.wf(),
    ensures
        tolerate_variance == 0 ==> r == Err::<Vec<(Rgba, usize)>, PipelineError>(
            PipelineError::InvalidTolerance,
        ),
        tolerate_variance >= 1 ==> (r matches Ok(list) && view_pairs(list@) == spec_most_color(
            img.cells@,
            tolerate_variance,
            count as int,
        )),
{
    if tolerate_variance == 0 {
        return Err(PipelineError::InvalidTolerance);
    }
    let buckets = tally_colors(img, tolerate_variance);
    let ranked = rank_buckets(&buckets);
    let mut out: Vec<(Rgba, usize)> = Vec::new();
    let mut i: usize = 0;
    let ghost tal = spec_tally(img.cells@, tolerate_variance);
    let ghost full = Seq::new(tal.len(), |i: int| (tal[i].0, tal[i].1, i));
    let ghost ranked_spec = spec_rank(full);
    proof {
        assert(view_pairs(buckets@) == tal);
        assert(Seq::new(
            buckets@.len(),
            |i: int| (buckets@[i].0, buckets@[i].1 as int, i),
        ) =~= full);
    }
    let limit = if count <= ranked.len() {
        count
    } else {
        ranked.len()
    };
    while i < limit
        invariant
            i <= limit,
            limit <= ranked.len(),
            out@.len() == i,
            view_triples(ranked@) == ranked_spec,
            forall|j: int|
                0 <= j < i ==> (out@[j].0, out@[j].1 as int) == (ranked_spec[j].0, ranked_spec[j].1),
        decreases limit - i,
    {
        let e = ranked[i];
        out.push((e.0, e.1));
        i = i + 1;
    }
    proof {
        assert(view_pairs(out@) =~= spec_most_color(
            img.cells@,
            tolerate_variance,
            count as int,
        ));
    }
    Ok(out)
}

} // verus!
