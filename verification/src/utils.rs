//! Shared positional utilities: the dual-key tolerance sort and row
//! splitting by secondary-axis gaps.
//!
//! The tolerance comparator is deliberately pairwise (two elements sort by
//! the secondary axis only when their primary coordinates are within the
//! threshold of each other), so it is not transitive near the threshold; the
//! sort guarantees a permutation whose adjacent pairs respect the comparator.
use vstd::prelude::*;

use crate::chart::dist;
use crate::chart::ChartCode;
use crate::chart::ChartGraph;
use crate::chart::ChartSource;

verus! {

/// Access to an element's primary-x and y coordinates.
pub trait AxisKeyed: Sized {
    spec fn kx(&self) -> int;

    spec fn ky(&self) -> int;

    fn key_x(&self) -> (r: i64)
        ensures
            r as int == self.kx(),
    ;

    fn key_y(&self) -> (r: i64)
        ensures
            r as int == self.ky(),
    ;
}

impl AxisKeyed for ChartSource {
    open spec fn kx(&self) -> int {
        self.x_min as int
    }

    open spec fn ky(&self) -> int {
        self.y as int
    }

    fn key_x(&self) -> (r: i64) {
        self.x_min
    }

    fn key_y(&self) -> (r: i64) {
        self.y
    }
}

impl AxisKeyed for ChartCode {
    open spec fn kx(&self) -> int {
        self.x_min as int
    }

    open spec fn ky(&self) -> int {
        self.y as int
    }

    fn key_x(&self) -> (r: i64) {
        self.x_min
    }

    fn key_y(&self) -> (r: i64) {
        self.y
    }
}

impl AxisKeyed for ChartGraph {
    open spec fn kx(&self) -> int {
        self.x as int
    }

    open spec fn ky(&self) -> int {
        self.y as int
    }

    fn key_x(&self) -> (r: i64) {
        self.x
    }

    fn key_y(&self) -> (r: i64) {
        self.y
    }
}

/// Primary coordinate under the chosen axis order.
pub open spec fn pkey<T: AxisKeyed>(e: T, y_primary: bool) -> int {
    if y_primary {
        e.ky()
    } else {
        e.kx()
    }
}

/// Secondary (tiebreak) coordinate under the chosen axis order.
pub open spec fn skey<T: AxisKeyed>(e: T, y_primary: bool) -> int {
    if y_primary {
        e.kx()
    } else {
        e.ky()
    }
}

/// `a` sorts strictly after `b`: by the secondary axis when the primary
/// coordinates are within the threshold, by the primary axis otherwise.
pub open spec fn dual_gt(pa: int, sa: int, pb: int, sb: int, t: int) -> bool {
    if dist(pa, pb) < t {
        sa > sb
    } else {
        pa > pb
    }
}

/// The comparator never ranks each of two elements after the other.
pub proof fn lemma_dual_gt_antisym(pa: int, sa: int, pb: int, sb: int, t: int)
    ensures
        dual_gt(pa, sa, pb, sb, t) ==> !dual_gt(pb, sb, pa, sa, t),
{
}

/// The dual-key comparator on elements of an axis-keyed type.
pub open spec fn dual_gt_of<T: AxisKeyed>(t: int, y_primary: bool) -> spec_fn(T, T) -> bool {
    |a: T, b: T|
        dual_gt(pkey(a, y_primary), skey(a, y_primary), pkey(b, y_primary), skey(b, y_primary), t)
}

/// Where insertion sort places `e` in the already-sorted `s`: before the
/// longest suffix of elements ranked after `e`.
pub open spec fn insert_pos_by<M>(s: Seq<M>, e: M, gt: spec_fn(M, M) -> bool) -> int
    decreases s.len(),
{
    if s.len() == 0 {
        0
    } else if gt(s.last(), e) {
        insert_pos_by(s.drop_last(), e, gt)
    } else {
        s.len() as int
    }
}

/// One insertion-sort step.
pub open spec fn insert_by<M>(s: Seq<M>, e: M, gt: spec_fn(M, M) -> bool) -> Seq<M> {
    s.insert(insert_pos_by(s, e, gt), e)
}

/// Insertion sort under the comparator `gt`, as the sorting here performs
/// it: the unique sequence the in-place sort produces.
pub open spec fn sort_by_gt<M>(s: Seq<M>, gt: spec_fn(M, M) -> bool) -> Seq<M>
    decreases s.len(),
{
    if s.len() <= 1 {
        s
    } else {
        insert_by(sort_by_gt(s.drop_last(), gt), s.last(), gt)
    }
}

pub proof fn lemma_insert_pos_bounds<M>(s: Seq<M>, e: M, gt: spec_fn(M, M) -> bool)
    ensures
        0 <= insert_pos_by(s, e, gt) <= s.len(),
    decreases s.len(),
{
    if s.len() > 0 && gt(s.last(), e) {
        lemma_insert_pos_bounds(s.drop_last(), e, gt);
    }
}

/// The insertion point is determined by where the scan from the right
/// stops: everything from `pos` on ranks after `e`, and the element before
/// `pos`, if any, does not.
proof fn lemma_insert_pos_char<M>(s: Seq<M>, e: M, gt: spec_fn(M, M) -> bool, pos: int)
    requires
        0 <= pos <= s.len(),
        forall|j: int| pos <= j < s.len() ==> gt(#[trigger] s[j], e),
        pos > 0 ==> !gt(s[pos - 1], e),
    ensures
        insert_pos_by(s, e, gt) == pos,
    decreases s.len(),
{
    if pos < s.len() {
        assert(gt(s.last(), e));
        assert(forall|j: int| pos <= j < s.drop_last().len() ==> gt(#[trigger] s.drop_last()[j], e));
        if pos > 0 {
            assert(s.drop_last()[pos - 1] == s[pos - 1]);
        }
        lemma_insert_pos_char(s.drop_last(), e, gt, pos);
    }
}

/// Sorting a sequence whose adjacent pairs already respect the comparator
/// leaves it unchanged.
pub proof fn lemma_sort_of_sorted<M>(s: Seq<M>, gt: spec_fn(M, M) -> bool)
    requires
        forall|i: int| 0 <= i < s.len() - 1 ==> !gt(#[trigger] s[i], s[i + 1]),
    ensures
        sort_by_gt(s, gt) == s,
    decreases s.len(),
{
    if s.len() > 1 {
        let d = s.drop_last();
        assert(forall|i: int| 0 <= i < d.len() - 1 ==> !gt(#[trigger] d[i], d[i + 1]));
        lemma_sort_of_sorted(d, gt);
        assert(!gt(d.last(), s.last()));
        assert(insert_pos_by(d, s.last(), gt) == d.len());
        assert(insert_by(d, s.last(), gt) =~= s);
    }
}

/// A view map that respects the comparator commutes with the insertion
/// point.
proof fn lemma_insert_pos_map<A, B>(
    s: Seq<A>,
    e: A,
    f: spec_fn(A) -> B,
    ga: spec_fn(A, A) -> bool,
    gb: spec_fn(B, B) -> bool,
)
    requires
        forall|x: A, y: A| #[trigger] ga(x, y) == gb(f(x), f(y)),
    ensures
        insert_pos_by(s.map_values(f), f(e), gb) == insert_pos_by(s, e, ga),
    decreases s.len(),
{
    if s.len() > 0 {
        assert(s.map_values(f).last() == f(s.last()));
        assert(s.map_values(f).drop_last() =~= s.drop_last().map_values(f));
        assert(ga(s.last(), e) == gb(f(s.last()), f(e)));
        if ga(s.last(), e) {
            lemma_insert_pos_map(s.drop_last(), e, f, ga, gb);
        }
    }
}

/// A view map that respects the comparator commutes with the whole sort:
/// the views of the sorted elements are the sorted views.
pub proof fn lemma_sort_map<A, B>(
    s: Seq<A>,
    f: spec_fn(A) -> B,
    ga: spec_fn(A, A) -> bool,
    gb: spec_fn(B, B) -> bool,
)
    requires
        forall|x: A, y: A| #[trigger] ga(x, y) == gb(f(x), f(y)),
    ensures
        sort_by_gt(s, ga).map_values(f) == sort_by_gt(s.map_values(f), gb),
    decreases s.len(),
{
    if s.len() <= 1 {
        assert(sort_by_gt(s.map_values(f), gb) == s.map_values(f));
    } else {
        let d = s.drop_last();
        lemma_sort_map(d, f, ga, gb);
        let t = sort_by_gt(d, ga);
        let p = insert_pos_by(t, s.last(), ga);
        lemma_insert_pos_bounds(t, s.last(), ga);
        lemma_insert_pos_map(t, s.last(), f, ga, gb);
        assert(s.map_values(f).drop_last() =~= d.map_values(f));
        assert(s.map_values(f).last() == f(s.last()));
        assert(t.insert(p, s.last()).map_values(f) =~= t.map_values(f).insert(p, f(s.last())));
        assert(sort_by_gt(s.map_values(f), gb) == insert_by(
            sort_by_gt(d.map_values(f), gb),
            f(s.last()),
            gb,
        ));
    }
}

/// Every adjacent pair respects the comparator.
pub open spec fn dual_sorted<T: AxisKeyed>(s: Seq<T>, t: int, y_primary: bool) -> bool {
    forall|i: int|
        0 <= i < s.len() - 1 ==> !dual_gt(
            pkey(#[trigger] s[i], y_primary),
            skey(s[i], y_primary),
            pkey(s[i + 1], y_primary),
            skey(s[i + 1], y_primary),
            t,
        )
}

fn dual_gt_exec<T: AxisKeyed>(a: &T, b: &T, t: i64, y_primary: bool) -> (r: bool)
    requires
        t >= 0,
    ensures
        r == dual_gt(pkey(*a, y_primary), skey(*a, y_primary), pkey(*b, y_primary), skey(*b, y_primary), t as int),
{
    let pa = if y_primary {
        a.key_y()
    } else {
        a.key_x()
    };
    let sa = if y_primary {
        a.key_x()
    } else {
        a.key_y()
    };
    let pb = if y_primary {
        b.key_y()
    } else {
        b.key_x()
    };
    let sb = if y_primary {
        b.key_x()
    } else {
        b.key_y()
    };
    let near = (pa as i128) - (pb as i128) < (t as i128) && (pb as i128) - (pa as i128) < (
    t as i128);
    if near {
        sa > sb
    } else {
        pa > pb
    }
}

/// In-place insertion sort under the dual-key tolerance comparator: the
/// result is a permutation of the input whose adjacent pairs respect the
/// comparator.
#[verifier::rlimit(60)]
pub fn sort_by_keys<T: AxisKeyed>(v: &mut Vec<T>, t: i64, y_primary: bool)
    requires
        t >= 0,
    ensures
        final(v)@.to_multiset() == old(v)@.to_multiset(),
        final(v)@.len() == old(v)@.len(),
        dual_sorted(final(v)@, t as int, y_primary),
        final(v)@ == sort_by_gt(old(v)@, dual_gt_of::<T>(t as int, y_primary)),
{
    let ghost gt = dual_gt_of::<T>(t as int, y_primary);
    let n = v.len();
    if n <= 1 {
        return ;
    }
    let mut i: usize = 1;
    proof {
        assert(v@.take(1) =~= old(v)@.take(1));
        assert(v@.skip(1) =~= old(v)@.skip(1));
    }
    while i < n
        invariant
            t >= 0,
            1 <= i <= n,
            gt == dual_gt_of::<T>(t as int, y_primary),
            v@.len() == n == old(v)@.len(),
            v@.to_multiset() == old(v)@.to_multiset(),
            dual_sorted(v@.take(i as int), t as int, y_primary),
            v@.take(i as int) == sort_by_gt(old(v)@.take(i as int), gt),
            v@.skip(i as int) == old(v)@.skip(i as int),
        decreases n - i,
    {
        let ghost before = v@;
        let e = v.remove(i);
        proof {
            broadcast use vstd::seq_lib::group_to_multiset_ensures;

            assert(v@ == before.remove(i as int));
            assert(v@.take(i as int) =~= before.take(i as int));
            assert(before.to_multiset().remove(e).insert(e) =~= before.to_multiset());
        }
        let mut pos: usize = i;
        while pos > 0 && dual_gt_exec(&v[pos - 1], &e, t, y_primary)
            invariant
                pos <= i < v@.len() + 1,
                t >= 0,
                v@.len() + 1 == n,
                dual_sorted(v@.take(i as int), t as int, y_primary),
                forall|j: int|
                    pos <= j < i ==> dual_gt(
                        pkey(#[trigger] v@[j], y_primary),
                        skey(v@[j], y_primary),
                        pkey(e, y_primary),
                        skey(e, y_primary),
                        t as int,
                    ),
            decreases pos,
        {
            pos -= 1;
        }
        let ghost mid = v@;
        proof {
            broadcast use vstd::seq_lib::group_to_multiset_ensures;

        }
        v.insert(pos, e);
        proof {
            broadcast use vstd::seq_lib::group_to_multiset_ensures;

            assert(v@ == mid.insert(pos as int, e));
            assert(v@.remove(pos as int) =~= mid);
            assert(v@.to_multiset().remove(v@[pos as int]).insert(e) =~= v@.to_multiset());
            assert(v@.to_multiset() =~= before.to_multiset());
            assert forall|j: int|
                0 <= j < i as int implies !dual_gt(
                pkey(#[trigger] v@.take(i as int + 1)[j], y_primary),
                skey(v@.take(i as int + 1)[j], y_primary),
                pkey(v@.take(i as int + 1)[j + 1], y_primary),
                skey(v@.take(i as int + 1)[j + 1], y_primary),
                t as int,
            ) by {
                if j + 1 < pos {
                    assert(v@[j] == mid[j]);
                    assert(v@[j + 1] == mid[j + 1]);
                    assert(mid.take(i as int)[j] == mid[j]);
                } else if j + 1 == pos {
                    assert(v@[j] == mid[j]);
                    assert(v@[pos as int] == e);
                    lemma_dual_gt_antisym(
                        pkey(e, y_primary),
                        skey(e, y_primary),
                        pkey(mid[j], y_primary),
                        skey(mid[j], y_primary),
                        t as int,
                    );
                } else if j == pos {
                    assert(v@[j] == e);
                    assert(v@[j + 1] == mid[j]);
                    lemma_dual_gt_antisym(
                        pkey(mid[j], y_primary),
                        skey(mid[j], y_primary),
                        pkey(e, y_primary),
                        skey(e, y_primary),
                        t as int,
                    );
                } else {
                    assert(v@[j] == mid[j - 1]);
                    assert(v@[j + 1] == mid[j]);
                    assert(mid.take(i as int)[j - 1] == mid[j - 1]);
                }
            }
            assert(dual_sorted(v@.take(i as int + 1), t as int, y_primary));
            assert(mid.take(i as int) =~= before.take(i as int));
            assert(e == before[i as int]);
            assert(before.skip(i as int)[0] == old(v)@.skip(i as int)[0]);
            assert(e == old(v)@[i as int]);
            assert forall|j: int| pos <= j < i implies gt(#[trigger] mid.take(i as int)[j], e) by {
                assert(mid.take(i as int)[j] == mid[j]);
            }
            if pos > 0 {
                assert(!gt(mid.take(i as int)[pos - 1], e));
            }
            lemma_insert_pos_char(mid.take(i as int), e, gt, pos as int);
            assert(v@.take(i as int + 1) =~= mid.take(i as int).insert(pos as int, e));
            assert(v@.take(i as int + 1) == insert_by(before.take(i as int), e, gt));
            assert(old(v)@.take(i as int + 1).drop_last() =~= old(v)@.take(i as int));
            assert(old(v)@.take(i as int + 1).last() == old(v)@[i as int]);
            assert(sort_by_gt(old(v)@.take(i as int + 1), gt) == insert_by(
                sort_by_gt(old(v)@.take(i as int), gt),
                old(v)@[i as int],
                gt,
            ));
            assert(v@.take(i as int + 1) == sort_by_gt(old(v)@.take(i as int + 1), gt));
            assert forall|j: int| 0 <= j < v@.skip(i as int + 1).len() implies #[trigger] v@.skip(
                i as int + 1,
            )[j] == old(v)@.skip(i as int + 1)[j] by {
                assert(v@[i as int + 1 + j] == mid[i as int + j]);
                assert(mid[i as int + j] == before[i as int + 1 + j]);
                assert(before[i as int + 1 + j] == before.skip(i as int)[j + 1]);
                assert(old(v)@.skip(i as int)[j + 1] == old(v)@[i as int + 1 + j]);
            }
            assert(v@.skip(i as int + 1) =~= old(v)@.skip(i as int + 1));
        }
        i += 1;
    }
    proof {
        assert(v@.take(n as int) =~= v@);
        assert(old(v)@.take(n as int) =~= old(v)@);
    }
}

/// Sorting by the vertical axis with horizontal tiebreak, and by the
/// horizontal axis with vertical tiebreak, under a pairwise tolerance.
pub trait EnhanceVec {
    type Elem: AxisKeyed;

    spec fn elems(&self) -> Seq<Self::Elem>;

    fn sort_y_x(&mut self, threshold: i64)
        requires
            threshold >= 0,
        ensures
            final(self).elems().to_multiset() == old(self).elems().to_multiset(),
            final(self).elems().len() == old(self).elems().len(),
            dual_sorted(final(self).elems(), threshold as int, true),
            final(self).elems() == sort_by_gt(
                old(self).elems(),
                dual_gt_of::<Self::Elem>(threshold as int, true),
            ),
    ;

    fn sort_x_y(&mut self, threshold: i64)
        requires
            threshold >= 0,
        ensures
            final(self).elems().to_multiset() == old(self).elems().to_multiset(),
            final(self).elems().len() == old(self).elems().len(),
            dual_sorted(final(self).elems(), threshold as int, false),
            final(self).elems() == sort_by_gt(
                old(self).elems(),
                dual_gt_of::<Self::Elem>(threshold as int, false),
            ),
    ;
}

impl EnhanceVec for Vec<ChartSource> {
    type Elem = ChartSource;

    open spec fn elems(&self) -> Seq<ChartSource> {
        self@
    }

    fn sort_y_x(&mut self, threshold: i64) {
        sort_by_keys(self, threshold, true);
    }

    fn sort_x_y(&mut self, threshold: i64) {
        sort_by_keys(self, threshold, false);
    }
}

impl EnhanceVec for Vec<ChartCode> {
    type Elem = ChartCode;

    open spec fn elems(&self) -> Seq<ChartCode> {
        self@
    }

    fn sort_y_x(&mut self, threshold: i64) {
        sort_by_keys(self, threshold, true);
    }

    fn sort_x_y(&mut self, threshold: i64) {
        sort_by_keys(self, threshold, false);
    }
}

impl EnhanceVec for Vec<ChartGraph> {
    type Elem = ChartGraph;

    open spec fn elems(&self) -> Seq<ChartGraph> {
        self@
    }

    fn sort_y_x(&mut self, threshold: i64) {
        sort_by_keys(self, threshold, true);
    }

    fn sort_x_y(&mut self, threshold: i64) {
        sort_by_keys(self, threshold, false);
    }
}


/// Segment bounds of `ys` split where adjacent values differ by more than
/// `t`: the closed segments, and the start of the open one.
pub open spec fn gap_fold(ys: Seq<int>, t: int) -> (Seq<(int, int)>, int)
    decreases ys.len(),
{
    if ys.len() <= 1 {
        (Seq::empty(), 0)
    } else {
        let (done, start) = gap_fold(ys.drop_last(), t);
        let k = ys.len() - 1;
        if dist(ys[k], ys[k - 1]) > t {
            (done.push((start, k)), k)
        } else {
            (done, start)
        }
    }
}

/// The ordered segments of `ys` split at gaps above `t`; one (possibly
/// empty) segment always remains open at the end.
pub open spec fn gap_segments(ys: Seq<int>, t: int) -> Seq<(int, int)> {
    let (done, start) = gap_fold(ys, t);
    done.push((start, ys.len() as int))
}

proof fn lemma_gap_fold_bounds(ys: Seq<int>, t: int)
    ensures
        forall|g: int|
            0 <= g < gap_fold(ys, t).0.len() ==> 0 <= (#[trigger] gap_fold(ys, t).0[g]).0
                <= gap_fold(ys, t).0[g].1 <= ys.len(),
    decreases ys.len(),
{
    if ys.len() > 1 {
        lemma_gap_fold_bounds(ys.drop_last(), t);
        lemma_gap_fold_start(ys.drop_last(), t);
        let (done, start) = gap_fold(ys.drop_last(), t);
        let k = ys.len() - 1;
        assert forall|g: int| 0 <= g < gap_fold(ys, t).0.len() implies 0 <= (#[trigger] gap_fold(
            ys,
            t,
        ).0[g]).0 <= gap_fold(ys, t).0[g].1 <= ys.len() by {
            if dist(ys[k], ys[k - 1]) > t {
                if g < done.len() {
                    assert(gap_fold(ys, t).0[g] == done[g]);
                } else {
                    assert(gap_fold(ys, t).0[g] == (start, k));
                }
            } else {
                assert(gap_fold(ys, t).0[g] == done[g]);
            }
        }
    }
}

/// Every split segment is a well-formed subrange of the input.
pub proof fn lemma_gap_segments_bounds(ys: Seq<int>, t: int)
    ensures
        forall|g: int|
            0 <= g < gap_segments(ys, t).len() ==> 0 <= (#[trigger] gap_segments(ys, t)[g]).0
                <= gap_segments(ys, t)[g].1 <= ys.len(),
{
    lemma_gap_fold_bounds(ys, t);
    lemma_gap_fold_start(ys, t);
    let (done, start) = gap_fold(ys, t);
    assert forall|g: int| 0 <= g < gap_segments(ys, t).len() implies 0 <= (#[trigger] gap_segments(
        ys,
        t,
    )[g]).0 <= gap_segments(ys, t)[g].1 <= ys.len() by {
        if g < done.len() {
            assert(gap_segments(ys, t)[g] == done[g]);
        } else {
            assert(gap_segments(ys, t)[g] == (start, ys.len() as int));
        }
    }
}

pub proof fn lemma_gap_fold_start(ys: Seq<int>, t: int)
    ensures
        0 <= gap_fold(ys, t).1,
        ys.len() <= 1 ==> gap_fold(ys, t).1 == 0,
        ys.len() >= 1 ==> gap_fold(ys, t).1 < ys.len(),
    decreases ys.len(),
{
    if ys.len() > 1 {
        lemma_gap_fold_start(ys.drop_last(), t);
    }
}

/// The vertical coordinates of a sequence of Source runs.
pub open spec fn source_ys(s: Seq<ChartSource>) -> Seq<int> {
    s.map_values(|c: ChartSource| c.y as int)
}

/// The vertical coordinates of a sequence of Graph records.
pub open spec fn graph_ys(s: Seq<ChartGraph>) -> Seq<int> {
    s.map_values(|c: ChartGraph| c.y as int)
}

/// Splits the (vertically sorted) Source runs into rows: a new row starts
/// where the vertical gap between consecutive runs exceeds `threshold`.
#[verifier::rlimit(30)]
pub fn split_chart_source(raw_vec: &Vec<ChartSource>, threshold: i64) -> (r: Vec<
    Vec<ChartSource>,
>)
    requires
        threshold >= 0,
    ensures
        ({
            let ys = source_ys(raw_vec@);
            let segs = gap_segments(ys, threshold as int);
            &&& r@.len() == segs.len()
            &&& forall|g: int|
                0 <= g < segs.len() ==> crate::chart::source_views(#[trigger] r@[g]@)
                    == crate::chart::source_views(
                    raw_vec@.subrange(segs[g].0, segs[g].1),
                )
        }),
{
    let n = raw_vec.len();
    let ghost ys = source_ys(raw_vec@);
    let mut res: Vec<Vec<ChartSource>> = Vec::new();
    let mut cur: Vec<ChartSource> = Vec::new();
    let mut prev_y: i64 = 0;
    let mut i: usize = 0;
    while i < n
        invariant
            threshold >= 0,
            i <= n == raw_vec@.len(),
            ys == source_ys(raw_vec@),
            i > 0 ==> prev_y as int == ys[i as int - 1],
            ({
                let (done, start) = gap_fold(ys.take(i as int), threshold as int);
                &&& res@.len() == done.len()
                &&& forall|g: int|
                    0 <= g < done.len() ==> crate::chart::source_views(#[trigger] res@[g]@)
                        == crate::chart::source_views(
                        raw_vec@.subrange(done[g].0, done[g].1),
                    )
                &&& crate::chart::source_views(cur@) == crate::chart::source_views(
                    raw_vec@.subrange(start, i as int),
                )
                &&& 0 <= start <= i
            }),
        decreases n - i,
    {
        let e = raw_vec[i].clone();
        proof {
            assert(ys.take(i as int + 1).drop_last() =~= ys.take(i as int));
            assert(ys[i as int] == raw_vec@[i as int].y as int);
            lemma_gap_fold_start(ys.take(i as int), threshold as int);
        }
        let brk = i > 0 && ((e.y as i128) - (prev_y as i128) > (threshold as i128) || (
        prev_y as i128) - (e.y as i128) > (threshold as i128));
        if brk {
            let ghost start = gap_fold(ys.take(i as int), threshold as int).1;
            res.push(cur);
            cur = Vec::new();
            proof {
                assert(res@.last()@ == res@[res@.len() - 1]@);
                assert forall|g: int|
                    0 <= g < res@.len() implies crate::chart::source_views(#[trigger] res@[g]@)
                    == crate::chart::source_views(
                    raw_vec@.subrange(
                        gap_fold(ys.take(i as int + 1), threshold as int).0[g].0,
                        gap_fold(ys.take(i as int + 1), threshold as int).0[g].1,
                    ),
                ) by {
                    let done0 = gap_fold(ys.take(i as int), threshold as int).0;
                    if g < done0.len() {
                        assert(res@[g] == res@.drop_last()[g]);
                        assert(done0.push((start, i as int))[g] == done0[g]);
                    } else {
                        assert(done0.push((start, i as int))[g] == (start, i as int));
                    }
                }
            }
        }
        cur.push(e);
        proof {
            let (done1, start1) = gap_fold(ys.take(i as int + 1), threshold as int);
            assert(cur@.drop_last() =~= cur@.subrange(0, cur@.len() - 1));
            assert(raw_vec@.subrange(start1, i as int + 1).drop_last() =~= raw_vec@.subrange(
                start1,
                i as int,
            ));
            assert(crate::chart::source_views(cur@) =~= crate::chart::source_views(
                cur@.drop_last(),
            ).push(cur@.last()@));
            assert(crate::chart::source_views(raw_vec@.subrange(start1, i as int + 1))
                =~= crate::chart::source_views(
                raw_vec@.subrange(start1, i as int),
            ).push(raw_vec@[i as int]@));
            assert(cur@.last()@ == raw_vec@[i as int]@);
        }
        prev_y = raw_vec[i].y;
        i += 1;
    }
    proof {
        assert(ys.take(n as int) =~= ys);
        lemma_gap_fold_start(ys, threshold as int);
    }
    res.push(cur);
    proof {
        let (done, start) = gap_fold(ys, threshold as int);
        assert forall|g: int|
            0 <= g < gap_segments(ys, threshold as int).len() implies crate::chart::source_views(
            #[trigger] res@[g]@,
        ) == crate::chart::source_views(
            raw_vec@.subrange(
                gap_segments(ys, threshold as int)[g].0,
                gap_segments(ys, threshold as int)[g].1,
            ),
        ) by {
            if g < done.len() {
                assert(res@[g] == res@.drop_last()[g]);
                assert(done.push((start, ys.len() as int))[g] == done[g]);
            } else {
                assert(done.push((start, ys.len() as int))[g] == (start, ys.len() as int));
                assert(res@[g] == res@.last());
            }
        }
    }
    res
}

/// Splits the (vertically sorted) Graph records into rows, as
/// [`split_chart_source`] does for Source runs.
#[verifier::rlimit(30)]
pub fn split_chart_graph(raw_vec: &Vec<ChartGraph>, threshold: i64) -> (r: Vec<Vec<ChartGraph>>)
    requires
        threshold >= 0,
    ensures
        ({
            let ys = graph_ys(raw_vec@);
            let segs = gap_segments(ys, threshold as int);
            &&& r@.len() == segs.len()
            &&& forall|g: int|
                0 <= g < segs.len() ==> crate::chart::graph_views(#[trigger] r@[g]@)
                    == crate::chart::graph_views(
                    raw_vec@.subrange(segs[g].0, segs[g].1),
                )
        }),
{
    let n = raw_vec.len();
    let ghost ys = graph_ys(raw_vec@);
    let mut res: Vec<Vec<ChartGraph>> = Vec::new();
    let mut cur: Vec<ChartGraph> = Vec::new();
    let mut prev_y: i64 = 0;
    let mut i: usize = 0;
    while i < n
        invariant
            threshold >= 0,
            i <= n == raw_vec@.len(),
            ys == graph_ys(raw_vec@),
            i > 0 ==> prev_y as int == ys[i as int - 1],
            ({
                let (done, start) = gap_fold(ys.take(i as int), threshold as int);
                &&& res@.len() == done.len()
                &&& forall|g: int|
                    0 <= g < done.len() ==> crate::chart::graph_views(#[trigger] res@[g]@)
                        == crate::chart::graph_views(
                        raw_vec@.subrange(done[g].0, done[g].1),
                    )
                &&& crate::chart::graph_views(cur@) == crate::chart::graph_views(
                    raw_vec@.subrange(start, i as int),
                )
                &&& 0 <= start <= i
            }),
        decreases n - i,
    {
        let e = raw_vec[i].clone();
        proof {
            assert(ys.take(i as int + 1).drop_last() =~= ys.take(i as int));
            assert(ys[i as int] == raw_vec@[i as int].y as int);
            lemma_gap_fold_start(ys.take(i as int), threshold as int);
        }
        let brk = i > 0 && ((e.y as i128) - (prev_y as i128) > (threshold as i128) || (
        prev_y as i128) - (e.y as i128) > (threshold as i128));
        if brk {
            let ghost start = gap_fold(ys.take(i as int), threshold as int).1;
            res.push(cur);
            cur = Vec::new();
            proof {
                assert forall|g: int|
                    0 <= g < res@.len() implies crate::chart::graph_views(#[trigger] res@[g]@)
                    == crate::chart::graph_views(
                    raw_vec@.subrange(
                        gap_fold(ys.take(i as int + 1), threshold as int).0[g].0,
                        gap_fold(ys.take(i as int + 1), threshold as int).0[g].1,
                    ),
                ) by {
                    let done0 = gap_fold(ys.take(i as int), threshold as int).0;
                    if g < done0.len() {
                        assert(res@[g] == res@.drop_last()[g]);
                        assert(done0.push((start, i as int))[g] == done0[g]);
                    } else {
                        assert(done0.push((start, i as int))[g] == (start, i as int));
                    }
                }
            }
        }
        cur.push(e);
        proof {
            let (done1, start1) = gap_fold(ys.take(i as int + 1), threshold as int);
            assert(cur@.drop_last() =~= cur@.subrange(0, cur@.len() - 1));
            assert(raw_vec@.subrange(start1, i as int + 1).drop_last() =~= raw_vec@.subrange(
                start1,
                i as int,
            ));
            assert(crate::chart::graph_views(cur@) =~= crate::chart::graph_views(
                cur@.drop_last(),
            ).push(cur@.last()@));
            assert(crate::chart::graph_views(raw_vec@.subrange(start1, i as int + 1))
                =~= crate::chart::graph_views(
                raw_vec@.subrange(start1, i as int),
            ).push(raw_vec@[i as int]@));
            assert(cur@.last()@ == raw_vec@[i as int]@);
        }
        prev_y = raw_vec[i].y;
        i += 1;
    }
    proof {
        assert(ys.take(n as int) =~= ys);
        lemma_gap_fold_start(ys, threshold as int);
    }
    res.push(cur);
    proof {
        let (done, start) = gap_fold(ys, threshold as int);
        assert forall|g: int|
            0 <= g < gap_segments(ys, threshold as int).len() implies crate::chart::graph_views(
            #[trigger] res@[g]@,
        ) == crate::chart::graph_views(
            raw_vec@.subrange(
                gap_segments(ys, threshold as int)[g].0,
                gap_segments(ys, threshold as int)[g].1,
            ),
        ) by {
            if g < done.len() {
                assert(res@[g] == res@.drop_last()[g]);
                assert(done.push((start, ys.len() as int))[g] == done[g]);
            } else {
                assert(done.push((start, ys.len() as int))[g] == (start, ys.len() as int));
                assert(res@[g] == res@.last());
            }
        }
    }
    res
}


/// Sort stability under tolerance: when all primary coordinates differ
/// pairwise by more than the threshold, a dual-key-sorted sequence is simply
/// non-decreasing along the primary axis, as a plain primary-axis sort is.
pub proof fn lemma_sort_stability<T: AxisKeyed>(s: Seq<T>, t: int, y_primary: bool)
    requires
        t >= 0,
        dual_sorted(s, t, y_primary),
        forall|i: int, j: int|
            0 <= i < j < s.len() ==> dist(
                pkey(#[trigger] s[i], y_primary),
                pkey(#[trigger] s[j], y_primary),
            ) > t,
    ensures
        forall|i: int, j: int|
            0 <= i <= j < s.len() ==> pkey(#[trigger] s[i], y_primary) <= pkey(
                #[trigger] s[j],
                y_primary,
            ),
{
    assert forall|i: int, j: int| 0 <= i <= j < s.len() implies pkey(
        #[trigger] s[i],
        y_primary,
    ) <= pkey(#[trigger] s[j], y_primary) by {
        lemma_sorted_chain(s, t, y_primary, i, j);
    }
}

proof fn lemma_sorted_chain<T: AxisKeyed>(s: Seq<T>, t: int, y_primary: bool, i: int, j: int)
    requires
        t >= 0,
        dual_sorted(s, t, y_primary),
        forall|a: int, b: int|
            0 <= a < b < s.len() ==> dist(
                pkey(#[trigger] s[a], y_primary),
                pkey(#[trigger] s[b], y_primary),
            ) > t,
        0 <= i <= j < s.len(),
    ensures
        pkey(s[i], y_primary) <= pkey(s[j], y_primary),
    decreases j - i,
{
    if i < j {
        lemma_sorted_chain(s, t, y_primary, i, j - 1);
        assert(!dual_gt(
            pkey(s[j - 1], y_primary),
            skey(s[j - 1], y_primary),
            pkey(s[j], y_primary),
            skey(s[j], y_primary),
            t,
        ));
        assert(dist(pkey(s[j - 1], y_primary), pkey(s[j], y_primary)) > t);
    }
}

} // verus!
