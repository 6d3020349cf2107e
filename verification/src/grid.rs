//! Grid reconstruction: boundary intervals derived from the Code stream, and
//! the two-pass bucketing of (Graph, Source) pairs by those intervals.
use vstd::prelude::*;

use crate::chart::dist;
use crate::chart::ChartCode;
use crate::chart::ChartGraph;
use crate::chart::ChartSource;
use crate::chart::GraphModel;
use crate::chart::SourceModel;
use crate::utils::dual_sorted;
use crate::utils::gap_segments;
use crate::utils::EnhanceVec;
use crate::DEDUP_TOLERANCE;

verus! {

/// The horizontal positions of a sequence of Code runs.
pub open spec fn code_xs(s: Seq<ChartCode>) -> Seq<int> {
    s.map_values(|c: ChartCode| c.x_min as int)
}

/// The vertical positions of a sequence of Code runs.
pub open spec fn code_ys(s: Seq<ChartCode>) -> Seq<int> {
    s.map_values(|c: ChartCode| c.y as int)
}

/// `xs` with each value within `tol` of the last kept value collapsed away.
pub open spec fn dedup_tol(xs: Seq<int>, tol: int) -> Seq<int>
    decreases xs.len(),
{
    if xs.len() == 0 {
        Seq::empty()
    } else if xs.len() == 1 {
        seq![xs[0]]
    } else {
        let d = dedup_tol(xs.drop_last(), tol);
        if dist(xs.last(), d.last()) < tol {
            d
        } else {
            d.push(xs.last())
        }
    }
}

pub proof fn lemma_dedup_nonempty(xs: Seq<int>, tol: int)
    ensures
        xs.len() > 0 ==> dedup_tol(xs, tol).len() > 0,
        dedup_tol(xs, tol).len() <= xs.len(),
    decreases xs.len(),
{
    if xs.len() > 1 {
        lemma_dedup_nonempty(xs.drop_last(), tol);
    }
}

/// The boundary intervals of the deduplicated positions `ps`: each position
/// paired with the next, the last paired with the greatest representable
/// value, standing for positive infinity.
pub open spec fn intervals_of(ps: Seq<int>) -> Seq<(int, int)> {
    Seq::new(
        ps.len(),
        |i: int|
            (
                ps[i],
                if i == ps.len() - 1 {
                    i64::MAX as int
                } else {
                    ps[i + 1]
                },
            ),
    )
}

/// Boundary-interval derivation partitions the axis: over `N` deduplicated
/// positions it yields exactly `N` intervals, each starting at its position,
/// adjacent intervals sharing an endpoint (no gaps), and the last extending
/// to the greatest representable value.
pub proof fn lemma_boundary_partition(ps: Seq<int>)
    requires
        ps.len() >= 1,
    ensures
        intervals_of(ps).len() == ps.len(),
        forall|i: int| 0 <= i < ps.len() ==> (#[trigger] intervals_of(ps)[i]).0 == ps[i],
        forall|i: int|
            0 <= i < ps.len() - 1 ==> (#[trigger] intervals_of(ps)[i]).1 == intervals_of(ps)[i
                + 1].0,
        intervals_of(ps).last().1 == i64::MAX as int,
{
}

/// Views of a vector of fixed-point intervals.
pub open spec fn iv_views(v: Seq<(i64, i64)>) -> Seq<(int, int)> {
    v.map_values(|p: (i64, i64)| (p.0 as int, p.1 as int))
}

fn dedup_positions(xs: &Vec<i64>, tol: i64) -> (r: Vec<i64>)
    requires
        tol >= 0,
    ensures
        r@.map_values(|x: i64| x as int) == dedup_tol(xs@.map_values(|x: i64| x as int), tol as int),
{
    let ghost xv = xs@.map_values(|x: i64| x as int);
    let n = xs.len();
    let mut r: Vec<i64> = Vec::new();
    let mut i: usize = 0;
    while i < n
        invariant
            tol >= 0,
            i <= n == xs@.len(),
            xv == xs@.map_values(|x: i64| x as int),
            r@.map_values(|x: i64| x as int) == dedup_tol(xv.take(i as int), tol as int),
            r@.len() > 0 <==> i > 0,
            i > 0 ==> r@.len() >= 1,
        decreases n - i,
    {
        let x = xs[i];
        proof {
            assert(xv.take(i as int + 1).drop_last() =~= xv.take(i as int));
            assert(xv.take(i as int + 1).last() == xv[i as int]);
            assert(xv[i as int] == xs@[i as int] as int);
        }
        if i == 0 {
            r.push(x);
            proof {
                assert(r@.map_values(|x: i64| x as int) =~= seq![xv[0]]);
                assert(xv.take(1) =~= seq![xv[0]]);
                assert(dedup_tol(xv.take(1), tol as int) == seq![xv.take(1)[0]]);
            }
        } else {
            let last = r[r.len() - 1];
            proof {
                assert(r@.map_values(|x: i64| x as int)[r@.len() - 1] == r@[r@.len() - 1] as int);
                assert(dedup_tol(xv.take(i as int), tol as int).last() == last as int);
                lemma_dedup_nonempty(xv.take(i as int), tol as int);
            }
            let near = (x as i128) - (last as i128) < (tol as i128) && (last as i128) - (
            x as i128) < (tol as i128);
            if !near {
                r.push(x);
                proof {
                    assert(r@.map_values(|x: i64| x as int) =~= r@.drop_last().map_values(
                        |x: i64| x as int,
                    ).push(r@.last() as int));
                }
            }
        }
        i += 1;
    }
    proof {
        assert(xv.take(n as int) =~= xv);
    }
    r
}

fn windows_to_max(ps: &Vec<i64>) -> (r: Vec<(i64, i64)>)
    ensures
        iv_views(r@) == intervals_of(ps@.map_values(|x: i64| x as int)),
{
    let ghost pv = ps@.map_values(|x: i64| x as int);
    let m = ps.len();
    let mut r: Vec<(i64, i64)> = Vec::new();
    let mut i: usize = 0;
    while i < m
        invariant
            i <= m == ps@.len(),
            pv == ps@.map_values(|x: i64| x as int),
            r@.len() == i,
            forall|j: int| 0 <= j < i ==> #[trigger] iv_views(r@)[j] == intervals_of(pv)[j],
        decreases m - i,
    {
        let hi: i64 = if i == m - 1 {
            i64::MAX
        } else {
            ps[i + 1]
        };
        let val: (i64, i64) = (ps[i], hi);
        let ghost prev = r@;
        r.push(val);
        proof {
            assert forall|j: int| 0 <= j <= i as int implies #[trigger] iv_views(r@)[j]
                == intervals_of(pv)[j] by {
                if j < i as int {
                    assert(prev.push(val)[j] == prev[j]);
                    assert(r@[j] == prev[j]);
                    assert(iv_views(prev)[j] == (prev[j].0 as int, prev[j].1 as int));
                    assert(iv_views(r@)[j] == (r@[j].0 as int, r@[j].1 as int));
                } else {
                    assert(prev.push(val)[j] == val);
                    assert(r@[j] == val);
                    assert(iv_views(r@)[j] == (val.0 as int, val.1 as int));
                    assert(pv[j] == ps@[j] as int);
                    if j != m as int - 1 {
                        assert(pv[j + 1] == ps@[j + 1] as int);
                    }
                }
            }
        }
        i += 1;
    }
    proof {
        assert(iv_views(r@) =~= intervals_of(pv));
    }
    r
}

/// Sorts the Code runs along x (with y tiebreak under the dedup tolerance)
/// and derives the column-axis boundary intervals from the deduplicated
/// horizontal positions.
pub fn get_row_range_from_code_vec(code_vec: &mut Vec<ChartCode>) -> (r: Vec<(i64, i64)>)
    ensures
        final(code_vec)@.to_multiset() == old(code_vec)@.to_multiset(),
        final(code_vec)@.len() == old(code_vec)@.len(),
        dual_sorted(final(code_vec)@, DEDUP_TOLERANCE as int, false),
        final(code_vec)@ == crate::utils::sort_by_gt(
            old(code_vec)@,
            crate::utils::dual_gt_of::<ChartCode>(DEDUP_TOLERANCE as int, false),
        ),
        iv_views(r@) == intervals_of(
            dedup_tol(code_xs(final(code_vec)@), DEDUP_TOLERANCE as int),
        ),
{
    code_vec.sort_x_y(DEDUP_TOLERANCE);
    let n = code_vec.len();
    let mut xs: Vec<i64> = Vec::new();
    let mut i: usize = 0;
    while i < n
        invariant
            i <= n == code_vec@.len(),
            xs@.len() == i,
            forall|j: int| 0 <= j < i ==> #[trigger] xs@[j] == code_vec@[j].x_min,
        decreases n - i,
    {
        xs.push(code_vec[i].x_min);
        i += 1;
    }
    proof {
        assert(xs@.map_values(|x: i64| x as int) =~= code_xs(code_vec@));
    }
    let ps = dedup_positions(&xs, DEDUP_TOLERANCE);
    windows_to_max(&ps)
}

/// Sorts the Code runs along y (with x tiebreak under the dedup tolerance)
/// and derives the row-axis boundary intervals from the deduplicated
/// vertical positions.
pub fn get_col_range_from_code_vec(code_vec: &mut Vec<ChartCode>) -> (r: Vec<(i64, i64)>)
    ensures
        final(code_vec)@.to_multiset() == old(code_vec)@.to_multiset(),
        final(code_vec)@.len() == old(code_vec)@.len(),
        dual_sorted(final(code_vec)@, DEDUP_TOLERANCE as int, true),
        final(code_vec)@ == crate::utils::sort_by_gt(
            old(code_vec)@,
            crate::utils::dual_gt_of::<ChartCode>(DEDUP_TOLERANCE as int, true),
        ),
        iv_views(r@) == intervals_of(
            dedup_tol(code_ys(final(code_vec)@), DEDUP_TOLERANCE as int),
        ),
{
    code_vec.sort_y_x(DEDUP_TOLERANCE);
    let n = code_vec.len();
    let mut ys: Vec<i64> = Vec::new();
    let mut i: usize = 0;
    while i < n
        invariant
            i <= n == code_vec@.len(),
            ys@.len() == i,
            forall|j: int| 0 <= j < i ==> #[trigger] ys@[j] == code_vec@[j].y,
        decreases n - i,
    {
        ys.push(code_vec[i].y);
        i += 1;
    }
    proof {
        assert(ys@.map_values(|x: i64| x as int) =~= code_ys(code_vec@));
    }
    let ps = dedup_positions(&ys, DEDUP_TOLERANCE);
    windows_to_max(&ps)
}

/// Sorts the Code runs along x and splits them into columns of equal
/// horizontal position.
pub fn split_code_vec(code_vec: &mut Vec<ChartCode>) -> (r: Vec<Vec<ChartCode>>)
    ensures
        final(code_vec)@.to_multiset() == old(code_vec)@.to_multiset(),
        final(code_vec)@.len() == old(code_vec)@.len(),
        dual_sorted(final(code_vec)@, DEDUP_TOLERANCE as int, false),
        final(code_vec)@ == crate::utils::sort_by_gt(
            old(code_vec)@,
            crate::utils::dual_gt_of::<ChartCode>(DEDUP_TOLERANCE as int, false),
        ),
        final(code_vec)@.len() == 0 ==> r@.len() == 0,
        final(code_vec)@.len() > 0 ==> ({
            let segs = gap_segments(code_xs(final(code_vec)@), 0);
            &&& r@.len() == segs.len()
            &&& forall|g: int|
                0 <= g < segs.len() ==> (#[trigger] r@[g])@ == final(code_vec)@.subrange(
                    segs[g].0,
                    segs[g].1,
                )
        }),
{
    code_vec.sort_x_y(DEDUP_TOLERANCE);
    let n = code_vec.len();
    let ghost sorted = code_vec@;
    let ghost xv = code_xs(sorted);
    let mut res: Vec<Vec<ChartCode>> = Vec::new();
    if n == 0 {
        return res;
    }
    let mut cur: Vec<ChartCode> = Vec::new();
    let mut prev_x: i64 = 0;
    let mut i: usize = 0;
    while i < n
        invariant
            i <= n == code_vec@.len(),
            code_vec@ == sorted,
            xv == code_xs(sorted),
            i > 0 ==> prev_x as int == xv[i as int - 1],
            ({
                let (done, start) = crate::utils::gap_fold(xv.take(i as int), 0);
                &&& res@.len() == done.len()
                &&& forall|g: int|
                    0 <= g < done.len() ==> (#[trigger] res@[g])@ == sorted.subrange(
                        done[g].0,
                        done[g].1,
                    )
                &&& cur@ == sorted.subrange(start, i as int)
                &&& 0 <= start <= i
            }),
        decreases n - i,
    {
        let e = code_vec[i];
        proof {
            assert(xv.take(i as int + 1).drop_last() =~= xv.take(i as int));
            assert(xv[i as int] == sorted[i as int].x_min as int);
            crate::utils::lemma_gap_fold_start(xv.take(i as int), 0);
        }
        let brk = i > 0 && e.x_min != prev_x;
        proof {
            if i > 0 {
                assert(brk == (dist(xv[i as int], xv[i as int - 1]) > 0));
            }
        }
        if brk {
            let ghost start = crate::utils::gap_fold(xv.take(i as int), 0).1;
            res.push(cur);
            cur = Vec::new();
            proof {
                assert forall|g: int|
                    0 <= g < res@.len() implies (#[trigger] res@[g])@ == sorted.subrange(
                    crate::utils::gap_fold(xv.take(i as int + 1), 0).0[g].0,
                    crate::utils::gap_fold(xv.take(i as int + 1), 0).0[g].1,
                ) by {
                    let done0 = crate::utils::gap_fold(xv.take(i as int), 0).0;
                    if g < done0.len() {
                        assert(res@[g] == res@.drop_last()[g]);
                        assert(done0.push((start, i as int))[g] == done0[g]);
                    } else {
                        assert(done0.push((start, i as int))[g] == (start, i as int));
                    }
                }
            }
        }
        cur.push(e);
        proof {
            let (done1, start1) = crate::utils::gap_fold(xv.take(i as int + 1), 0);
            assert(cur@ =~= sorted.subrange(start1, i as int + 1));
        }
        prev_x = e.x_min;
        i += 1;
    }
    proof {
        assert(xv.take(n as int) =~= xv);
        crate::utils::lemma_gap_fold_start(xv, 0);
    }
    res.push(cur);
    proof {
        let (done, start) = crate::utils::gap_fold(xv, 0);
        assert forall|g: int|
            0 <= g < gap_segments(xv, 0).len() implies (#[trigger] res@[g])@ == sorted.subrange(
            gap_segments(xv, 0)[g].0,
            gap_segments(xv, 0)[g].1,
        ) by {
            if g < done.len() {
                assert(res@[g] == res@.drop_last()[g]);
                assert(done.push((start, xv.len() as int))[g] == done[g]);
            } else {
                assert(done.push((start, xv.len() as int))[g] == (start, xv.len() as int));
                assert(res@[g] == res@.last());
            }
        }
    }
    res
}


/// Views of a vector of (Graph, Source) pairs.
pub open spec fn pair_views(v: Seq<(ChartGraph, ChartSource)>) -> Seq<(GraphModel, SourceModel)> {
    v.map_values(|p: (ChartGraph, ChartSource)| (p.0@, p.1@))
}

/// The coordinate by which a pair is bucketed: the Source run's vertical
/// position for row bucketing, its least horizontal position for column
/// bucketing.
pub open spec fn pair_coord(p: (GraphModel, SourceModel), by_row: bool) -> int {
    if by_row {
        p.1.y
    } else {
        p.1.x_min
    }
}

/// Index of the first interval whose open range strictly contains `c`,
/// scanning from `k`; the overflow index `ivs.len()` when none does.
pub open spec fn bucket_from(ivs: Seq<(int, int)>, c: int, k: int) -> int
    decreases ivs.len() - k,
{
    if k < 0 || k >= ivs.len() {
        ivs.len() as int
    } else if ivs[k].0 < c && c < ivs[k].1 {
        k
    } else {
        bucket_from(ivs, c, k + 1)
    }
}

/// The bucket of coordinate `c`: the first interval strictly containing it,
/// or the overflow bucket `ivs.len()`.
pub open spec fn bucket_of(ivs: Seq<(int, int)>, c: int) -> int {
    bucket_from(ivs, c, 0)
}

/// Every coordinate is assigned exactly one bucket index, in range.
pub proof fn lemma_bucket_of_total(ivs: Seq<(int, int)>, c: int)
    ensures
        0 <= bucket_of(ivs, c) <= ivs.len(),
{
    lemma_bucket_from_bounds(ivs, c, 0);
}

proof fn lemma_bucket_from_bounds(ivs: Seq<(int, int)>, c: int, k: int)
    requires
        0 <= k,
    ensures
        0 <= bucket_from(ivs, c, k) <= ivs.len(),
    decreases ivs.len() - k,
{
    if k < ivs.len() && !(ivs[k].0 < c && c < ivs[k].1) {
        lemma_bucket_from_bounds(ivs, c, k + 1);
    }
}

/// The pairs of each bucket, in input order: bucket `k` holds exactly the
/// pairs whose coordinate falls in interval `k`, and the overflow bucket
/// `ivs.len()` those contained in no interval.
pub open spec fn bucketed(
    pairs: Seq<(GraphModel, SourceModel)>,
    ivs: Seq<(int, int)>,
    by_row: bool,
) -> Seq<Seq<(GraphModel, SourceModel)>> {
    Seq::new(
        ivs.len() + 1,
        |k: int|
            pairs.filter(
                |p: (GraphModel, SourceModel)| bucket_of(ivs, pair_coord(p, by_row)) == k,
            ),
    )
}

/// The non-empty buckets, ordered by bucket index.
pub open spec fn grouped(
    pairs: Seq<(GraphModel, SourceModel)>,
    ivs: Seq<(int, int)>,
    by_row: bool,
) -> Seq<Seq<(GraphModel, SourceModel)>> {
    bucketed(pairs, ivs, by_row).filter(|b: Seq<(GraphModel, SourceModel)>| b.len() > 0)
}

/// One filter step: appending an element extends exactly the matching
/// filter.
proof fn lemma_filter_push_step<A>(s: Seq<A>, pred: spec_fn(A) -> bool, e: A)
    ensures
        pred(e) ==> s.push(e).filter(pred) == s.filter(pred).push(e),
        !pred(e) ==> s.push(e).filter(pred) == s.filter(pred),
{
    reveal(Seq::filter);
    assert(s.push(e).drop_last() =~= s);
    assert(s.push(e).last() == e);
}

fn bucket_exec(ranges: &Vec<(i64, i64)>, c: i64) -> (r: usize)
    ensures
        r as int == bucket_of(iv_views(ranges@), c as int),
{
    let ghost ivs = iv_views(ranges@);
    let n = ranges.len();
    let mut k: usize = 0;
    while k < n
        invariant
            k <= n == ranges@.len(),
            ivs == iv_views(ranges@),
            bucket_of(ivs, c as int) == bucket_from(ivs, c as int, k as int),
        decreases n - k,
    {
        proof {
            assert(ivs[k as int] == (ranges@[k as int].0 as int, ranges@[k as int].1 as int));
        }
        if ranges[k].0 < c && c < ranges[k].1 {
            return k;
        }
        k += 1;
    }
    n
}

/// Buckets the (Graph, Source) pairs by the given boundary intervals on one
/// axis, keeping input order inside each bucket and dropping empty buckets;
/// a pair contained in no interval goes to the overflow bucket, ordered
/// last.
#[verifier::rlimit(50)]
fn group_pairs(pairs: Vec<(ChartGraph, ChartSource)>, ranges: &Vec<(i64, i64)>, by_row: bool) -> (r:
    Vec<Vec<(ChartGraph, ChartSource)>>)
    ensures
        r@.map_values(|b: Vec<(ChartGraph, ChartSource)>| pair_views(b@)) == grouped(
            pair_views(pairs@),
            iv_views(ranges@),
            by_row,
        ),
{
    let ghost orig = pair_views(pairs@);
    let ghost ivs = iv_views(ranges@);
    let pn = pairs.len();
    let rgn = ranges.len();
    proof {
        assert(orig.len() == pn);
    }
    let ghost nb = rgn as int + 1;
    let mut buckets: Vec<Vec<(ChartGraph, ChartSource)>> = Vec::new();
    let mut bi: usize = 0;
    while bi < rgn
        invariant
            bi <= rgn,
            buckets@.len() == bi,
            forall|k: int| 0 <= k < bi ==> (#[trigger] buckets@[k])@.len() == 0,
        decreases rgn - bi,
    {
        buckets.push(Vec::new());
        bi += 1;
    }
    buckets.push(Vec::new());
    proof {
        assert(buckets@.len() == nb);
        assert(forall|k: int| 0 <= k < nb ==> (#[trigger] buckets@[k])@.len() == 0);
    }
    let mut rest = pairs;
    let mut j: usize = 0;
    proof {
        assert(orig.take(0) =~= Seq::<(GraphModel, SourceModel)>::empty());
        assert(pair_views(rest@) =~= orig.subrange(0, orig.len() as int));
        assert forall|k: int| 0 <= k < nb implies pair_views((#[trigger] buckets@[k])@)
            =~= orig.take(0).filter(
            |p: (GraphModel, SourceModel)| bucket_of(ivs, pair_coord(p, by_row)) == k,
        ) by {
            reveal(Seq::filter);
        }
    }
    while rest.len() > 0
        invariant
            buckets@.len() == nb == ranges@.len() + 1,
            ivs == iv_views(ranges@),
            orig.len() <= usize::MAX,
            j + rest@.len() == orig.len(),
            pair_views(rest@) == orig.subrange(j as int, orig.len() as int),
            forall|k: int|
                0 <= k < nb ==> pair_views((#[trigger] buckets@[k])@) == orig.take(
                    j as int,
                ).filter(|p: (GraphModel, SourceModel)| bucket_of(ivs, pair_coord(p, by_row)) == k),
        decreases rest@.len(),
    {
        let ghost oldrest = rest@;
        let p = rest.remove(0);
        let ghost pv = (p.0@, p.1@);
        proof {
            assert(rest@ == oldrest.remove(0));
            assert(pair_views(oldrest)[0] == pv);
            assert(orig.subrange(j as int, orig.len() as int)[0] == orig[j as int]);
            assert forall|x: int| 0 <= x < rest@.len() implies #[trigger] pair_views(rest@)[x]
                == orig.subrange(j as int + 1, orig.len() as int)[x] by {
                assert(oldrest.remove(0)[x] == oldrest[x + 1]);
                assert(pair_views(rest@)[x] == (rest@[x].0@, rest@[x].1@));
                assert(pair_views(oldrest)[x + 1] == (oldrest[x + 1].0@, oldrest[x + 1].1@));
                assert(pair_views(oldrest)[x + 1] == orig.subrange(j as int, orig.len() as int)[x
                    + 1]);
            }
            assert(pair_views(rest@) =~= orig.subrange(j as int + 1, orig.len() as int));
        }
        let c = if by_row {
            p.1.y
        } else {
            p.1.x_min
        };
        let kb = bucket_exec(ranges, c);
        proof {
            lemma_bucket_of_total(ivs, c as int);
            assert(pv == orig[j as int]);
            assert(pair_coord(pv, by_row) == c as int);
            assert(bucket_of(ivs, pair_coord(pv, by_row)) == kb as int);
        }
        let ghost oldbuckets = buckets@;
        let mut b = buckets.remove(kb);
        let ghost bprev = b@;
        b.push(p);
        let ghost bnow = b@;
        proof {
            assert(bprev == oldbuckets[kb as int]@);
            assert(bnow.drop_last() =~= bprev);
            bprev.lemma_push_map_commute(
                |p2: (ChartGraph, ChartSource)| (p2.0@, p2.1@),
                bnow.last(),
            );
            assert(bnow =~= bprev.push(bnow.last()));
            assert((bnow.last().0@, bnow.last().1@) == pv);
            assert(pair_views(bnow) == pair_views(bprev).push(pv));
        }
        buckets.insert(kb, b);
        proof {
            assert(buckets@.len() == nb);
            assert(buckets@[kb as int]@ == bnow);
            assert forall|k: int| 0 <= k < nb implies (#[trigger] buckets@[k])@ == (if k
                == kb as int {
                bnow
            } else {
                oldbuckets[k]@
            }) by {
                if k < kb as int {
                    assert(oldbuckets.remove(kb as int).insert(kb as int, buckets@[kb as int])[k]
                        == oldbuckets.remove(kb as int)[k]);
                    assert(oldbuckets.remove(kb as int)[k] == oldbuckets[k]);
                } else if k > kb as int {
                    assert(oldbuckets.remove(kb as int).insert(kb as int, buckets@[kb as int])[k]
                        == oldbuckets.remove(kb as int)[k - 1]);
                    assert(oldbuckets.remove(kb as int)[k - 1] == oldbuckets[k]);
                }
            }
            assert(orig.take(j as int + 1).drop_last() =~= orig.take(j as int));
            assert(orig.take(j as int + 1).last() == orig[j as int]);
            assert forall|k: int| 0 <= k < nb implies pair_views(
                (#[trigger] buckets@[k])@,
            ) == orig.take(j as int + 1).filter(
                |p2: (GraphModel, SourceModel)| bucket_of(ivs, pair_coord(p2, by_row)) == k,
            ) by {
                let pred = |p2: (GraphModel, SourceModel)| bucket_of(ivs, pair_coord(p2, by_row))
                    == k;
                lemma_filter_push_step(orig.take(j as int), pred, orig[j as int]);
                assert(orig.take(j as int).push(orig[j as int]) =~= orig.take(j as int + 1));
                if k == kb as int {
                    assert(pair_views(buckets@[k]@) == pair_views(bprev).push(pv));
                    assert(pred(orig[j as int]));
                } else {
                    assert(buckets@[k]@ == oldbuckets[k]@);
                    assert(!pred(orig[j as int]));
                }
            }
        }
        j += 1;
    }
    proof {
        assert(orig.take(j as int) =~= orig);
    }
    let ghost allv = buckets@.map_values(|b: Vec<(ChartGraph, ChartSource)>| pair_views(b@));
    proof {
        assert forall|k: int| 0 <= k < allv.len() implies #[trigger] allv[k] == bucketed(
            orig,
            ivs,
            by_row,
        )[k] by {
            assert(allv[k] == pair_views(buckets@[k]@));
        }
        assert(allv =~= bucketed(orig, ivs, by_row));
    }
    let mut res: Vec<Vec<(ChartGraph, ChartSource)>> = Vec::new();
    let mut rem = buckets;
    let rem_len0 = rem.len();
    let mut t: usize = 0;
    proof {
        assert(allv.len() == rem_len0);
        assert(allv.take(0) =~= Seq::<Seq<(GraphModel, SourceModel)>>::empty());
        assert(rem@.map_values(|b2: Vec<(ChartGraph, ChartSource)>| pair_views(b2@))
            =~= allv.subrange(0, allv.len() as int));
        assert(res@.map_values(|b2: Vec<(ChartGraph, ChartSource)>| pair_views(b2@)) =~= allv.take(
            0,
        ).filter(|b2: Seq<(GraphModel, SourceModel)>| b2.len() > 0)) by {
            reveal(Seq::filter);
        }
    }
    while rem.len() > 0
        invariant
            allv.len() <= usize::MAX,
            t + rem@.len() == allv.len(),
            rem@.map_values(|b2: Vec<(ChartGraph, ChartSource)>| pair_views(b2@)) == allv.subrange(
                t as int,
                allv.len() as int,
            ),
            res@.map_values(|b2: Vec<(ChartGraph, ChartSource)>| pair_views(b2@)) == allv.take(
                t as int,
            ).filter(|b2: Seq<(GraphModel, SourceModel)>| b2.len() > 0),
        decreases rem@.len(),
    {
        let ghost oldrem = rem@;
        let b = rem.remove(0);
        let ghost bv = pair_views(b@);
        let bn = b.len();
        proof {
            assert(rem@ == oldrem.remove(0));
            assert(oldrem.map_values(|b2: Vec<(ChartGraph, ChartSource)>| pair_views(b2@))[0]
                == bv);
            assert(bv == allv.subrange(t as int, allv.len() as int)[0]);
            assert(bv == allv[t as int]);
            assert forall|x: int| 0 <= x < rem@.len() implies pair_views(
                (#[trigger] rem@[x])@,
            ) == allv.subrange(t as int + 1, allv.len() as int)[x] by {
                assert(oldrem.remove(0)[x] == oldrem[x + 1]);
                assert(oldrem.map_values(|b2: Vec<(ChartGraph, ChartSource)>| pair_views(b2@))[x
                    + 1] == pair_views(oldrem[x + 1]@));
                assert(oldrem.map_values(|b2: Vec<(ChartGraph, ChartSource)>| pair_views(b2@))[x
                    + 1] == allv.subrange(t as int, allv.len() as int)[x + 1]);
            }
            assert(rem@.map_values(|b2: Vec<(ChartGraph, ChartSource)>| pair_views(b2@))
                =~= allv.subrange(t as int + 1, allv.len() as int));
            let pred = |b2: Seq<(GraphModel, SourceModel)>| b2.len() > 0;
            lemma_filter_push_step(allv.take(t as int), pred, allv[t as int]);
            assert(allv.take(t as int).push(allv[t as int]) =~= allv.take(t as int + 1));
        }
        if bn > 0 {
            let ghost resprev = res@;
            res.push(b);
            proof {
                assert(res@.drop_last() =~= resprev);
                resprev.lemma_push_map_commute(
                    |b2: Vec<(ChartGraph, ChartSource)>| pair_views(b2@),
                    res@.last(),
                );
                assert(res@ =~= resprev.push(res@.last()));
                assert(pair_views(res@.last()@) == bv);
                assert(bv.len() > 0);
            }
        } else {
            proof {
                assert(bv.len() == 0);
            }
        }
        t += 1;
    }
    proof {
        assert(allv.take(t as int) =~= allv);
    }
    res
}

/// Buckets the pairs into columns by the row-axis boundary intervals (the
/// Source run's horizontal position decides).
pub fn group_graph_source_iter_by_col(
    pairs: Vec<(ChartGraph, ChartSource)>,
    row_ranges: &Vec<(i64, i64)>,
) -> (r: Vec<Vec<(ChartGraph, ChartSource)>>)
    ensures
        r@.map_values(|b: Vec<(ChartGraph, ChartSource)>| pair_views(b@)) == grouped(
            pair_views(pairs@),
            iv_views(row_ranges@),
            false,
        ),
{
    group_pairs(pairs, row_ranges, false)
}

/// Buckets the pairs into rows by the column-axis boundary intervals (the
/// Source run's vertical position decides).
pub fn group_graph_source_iter_by_row(
    pairs: Vec<(ChartGraph, ChartSource)>,
    col_ranges: &Vec<(i64, i64)>,
) -> (r: Vec<Vec<(ChartGraph, ChartSource)>>)
    ensures
        r@.map_values(|b: Vec<(ChartGraph, ChartSource)>| pair_views(b@)) == grouped(
            pair_views(pairs@),
            iv_views(col_ranges@),
            true,
        ),
{
    group_pairs(pairs, col_ranges, true)
}


/// Sum of the bucket sizes.
pub open spec fn sum_lens(bs: Seq<Seq<(GraphModel, SourceModel)>>) -> int
    decreases bs.len(),
{
    if bs.len() == 0 {
        0
    } else {
        sum_lens(bs.drop_last()) + bs.last().len()
    }
}

proof fn lemma_sum_lens_zero(bs: Seq<Seq<(GraphModel, SourceModel)>>)
    requires
        forall|k: int| 0 <= k < bs.len() ==> (#[trigger] bs[k]).len() == 0,
    ensures
        sum_lens(bs) == 0,
    decreases bs.len(),
{
    if bs.len() > 0 {
        assert(forall|k: int|
            0 <= k < bs.drop_last().len() ==> (#[trigger] bs.drop_last()[k]).len() == 0);
        lemma_sum_lens_zero(bs.drop_last());
        assert(bs.last().len() == 0);
    }
}

proof fn lemma_sum_lens_pointwise(
    a: Seq<Seq<(GraphModel, SourceModel)>>,
    b: Seq<Seq<(GraphModel, SourceModel)>>,
    k0: int,
)
    requires
        a.len() == b.len(),
        0 <= k0 < a.len(),
        forall|k: int| 0 <= k < a.len() && k != k0 ==> #[trigger] a[k] == b[k],
        a[k0].len() == b[k0].len() + 1,
    ensures
        sum_lens(a) == sum_lens(b) + 1,
    decreases a.len(),
{
    if k0 == a.len() - 1 {
        assert(a.drop_last() =~= b.drop_last());
    } else {
        assert(forall|k: int|
            0 <= k < a.drop_last().len() && k != k0 ==> #[trigger] a.drop_last()[k]
                == b.drop_last()[k]);
        assert(a.drop_last()[k0] == a[k0]);
        assert(b.drop_last()[k0] == b[k0]);
        lemma_sum_lens_pointwise(a.drop_last(), b.drop_last(), k0);
        assert(a.last() == b.last());
    }
}

/// Correlator totality: every (Graph, Source) pair is assigned exactly one
/// bucket index, in range up to and including the overflow bucket; bucket
/// `k` holds exactly the pairs whose coordinate falls to `k`, in input
/// order; and the bucket sizes sum to the number of pairs, so no pair is
/// dropped or duplicated.
pub proof fn lemma_correlator_totality(
    pairs: Seq<(GraphModel, SourceModel)>,
    ivs: Seq<(int, int)>,
    by_row: bool,
)
    ensures
        forall|p: (GraphModel, SourceModel)|
            0 <= #[trigger] bucket_of(ivs, pair_coord(p, by_row)) <= ivs.len(),
        bucketed(pairs, ivs, by_row).len() == ivs.len() + 1,
        forall|k: int|
            0 <= k <= ivs.len() ==> #[trigger] bucketed(pairs, ivs, by_row)[k] == pairs.filter(
                |p: (GraphModel, SourceModel)| bucket_of(ivs, pair_coord(p, by_row)) == k,
            ),
        sum_lens(bucketed(pairs, ivs, by_row)) == pairs.len(),
    decreases pairs.len(),
{
    assert forall|p: (GraphModel, SourceModel)| 0 <= #[trigger] bucket_of(
        ivs,
        pair_coord(p, by_row),
    ) <= ivs.len() by {
        lemma_bucket_of_total(ivs, pair_coord(p, by_row));
    }
    reveal(Seq::filter);
    if pairs.len() == 0 {
        assert forall|k: int| 0 <= k < bucketed(pairs, ivs, by_row).len() implies (
        #[trigger] bucketed(pairs, ivs, by_row)[k]).len() == 0 by {
            assert(bucketed(pairs, ivs, by_row)[k] == pairs.filter(
                |p: (GraphModel, SourceModel)| bucket_of(ivs, pair_coord(p, by_row)) == k,
            ));
        }
        lemma_sum_lens_zero(bucketed(pairs, ivs, by_row));
    } else {
        lemma_correlator_totality(pairs.drop_last(), ivs, by_row);
        let last = pairs.last();
        let k0 = bucket_of(ivs, pair_coord(last, by_row));
        lemma_bucket_of_total(ivs, pair_coord(last, by_row));
        let a = bucketed(pairs, ivs, by_row);
        let b = bucketed(pairs.drop_last(), ivs, by_row);
        assert forall|k: int| 0 <= k < a.len() && k != k0 implies #[trigger] a[k] == b[k] by {
            let pred = |p: (GraphModel, SourceModel)| bucket_of(ivs, pair_coord(p, by_row)) == k;
            assert(a[k] == pairs.filter(pred));
            assert(b[k] == pairs.drop_last().filter(pred));
            assert(!pred(last));
        }
        assert(a[k0].len() == b[k0].len() + 1) by {
            let pred = |p: (GraphModel, SourceModel)| bucket_of(ivs, pair_coord(p, by_row)) == k0;
            assert(a[k0] == pairs.filter(pred));
            assert(b[k0] == pairs.drop_last().filter(pred));
            assert(pred(last));
            assert(pairs.filter(pred) == pairs.drop_last().filter(pred).push(last));
        }
        lemma_sum_lens_pointwise(a, b, k0);
    }
}

/// A pair whose coordinate is contained in no interval lands in the
/// overflow bucket, indexed one past the last interval.
pub proof fn lemma_overflow_bucket(ivs: Seq<(int, int)>, c: int)
    requires
        forall|k: int| 0 <= k < ivs.len() ==> !((#[trigger] ivs[k]).0 < c && c < ivs[k].1),
    ensures
        bucket_of(ivs, c) == ivs.len(),
{
    lemma_bucket_from_none(ivs, c, 0);
}

proof fn lemma_bucket_from_none(ivs: Seq<(int, int)>, c: int, k: int)
    requires
        0 <= k,
        forall|k2: int| 0 <= k2 < ivs.len() ==> !((#[trigger] ivs[k2]).0 < c && c < ivs[k2].1),
    ensures
        bucket_from(ivs, c, k) == ivs.len(),
    decreases ivs.len() - k,
{
    if k < ivs.len() {
        lemma_bucket_from_none(ivs, c, k + 1);
    }
}


proof fn lemma_filter_all(s: Seq<Seq<(GraphModel, SourceModel)>>)
    requires
        forall|k: int| 0 <= k < s.len() ==> (#[trigger] s[k]).len() > 0,
    ensures
        s.filter(|b: Seq<(GraphModel, SourceModel)>| b.len() > 0) == s,
    decreases s.len(),
{
    reveal(Seq::filter);
    if s.len() > 0 {
        assert(forall|k: int|
            0 <= k < s.drop_last().len() ==> (#[trigger] s.drop_last()[k]).len() > 0);
        lemma_filter_all(s.drop_last());
        assert(s.last().len() > 0);
        assert(s.filter(|b: Seq<(GraphModel, SourceModel)>| b.len() > 0) =~= s);
    } else {
        assert(s.filter(|b: Seq<(GraphModel, SourceModel)>| b.len() > 0) =~= s);
    }
}

/// Round-trip alignment of the grouping: when every bucket is inhabited,
/// dropping empty buckets drops nothing, so the output has exactly one group
/// per boundary interval plus the overflow group, and group `k` holds
/// exactly the pairs whose coordinate is bucketed to `k`.
pub proof fn lemma_grouping_aligned(
    pairs: Seq<(GraphModel, SourceModel)>,
    ivs: Seq<(int, int)>,
    by_row: bool,
)
    requires
        forall|k: int|
            0 <= k <= ivs.len() ==> (#[trigger] bucketed(pairs, ivs, by_row)[k]).len() > 0,
    ensures
        grouped(pairs, ivs, by_row) == bucketed(pairs, ivs, by_row),
        grouped(pairs, ivs, by_row).len() == ivs.len() + 1,
{
    let bs = bucketed(pairs, ivs, by_row);
    assert(forall|k: int| 0 <= k < bs.len() ==> (#[trigger] bs[k]).len() > 0);
    lemma_filter_all(bs);
}

} // verus!
