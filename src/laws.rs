use vstd::prelude::*;

use crate::interval::Interval;
use crate::loader::{add_row, find_name, insert_pos, load, name_lt, row_of};
use crate::window::{
    extend, fold, intervals_valid, lemma_fold_shape, weight, window_cuts, windows, WindowModel,
};

verus! {

/// The window that folding `seg` in order builds, if `seg` is not empty.
pub open spec fn merge(seg: Seq<Interval>) -> Option<WindowModel>
    decreases seg.len(),
{
    if seg.len() == 0 {
        None
    } else {
        Some(extend(merge(seg.drop_last()), seg.last()))
    }
}

/// Index of the first interval of window `k`, given the cuts.
pub open spec fn cut_before(c: Seq<int>, k: int) -> int {
    if k == 0 {
        0
    } else {
        c[k - 1]
    }
}

/// `c` splits `0..n` into non-empty consecutive runs.
pub open spec fn is_partition(c: Seq<int>, n: int) -> bool {
    &&& forall|k: int| 0 <= k < c.len() ==> cut_before(c, k) < #[trigger] c[k]
    &&& forall|k: int| 0 <= k < c.len() ==> 0 < #[trigger] c[k] <= n
}

proof fn lemma_fold_segments(ivs: Seq<Interval>, ws: int)
    requires
        intervals_valid(ivs),
    ensures
        ({
            let f = fold(ivs, ws);
            let c = f.cuts;
            let last = if c.len() == 0 {
                0
            } else {
                c.last()
            };
            &&& c.len() == f.closed.len()
            &&& is_partition(c, ivs.len() as int)
            &&& forall|k: int|
                0 <= k < c.len() ==> f.closed[k] == merge(
                    ivs.subrange(cut_before(c, k), #[trigger] c[k]),
                )->0
            &&& 0 <= last <= ivs.len()
            &&& f.open == merge(ivs.subrange(last, ivs.len() as int))
        }),
    decreases ivs.len(),
{
    if ivs.len() == 0 {
        assert(ivs.subrange(0, 0) =~= Seq::<Interval>::empty());
    } else {
        let p = ivs.drop_last();
        assert(intervals_valid(p)) by {
            assert forall|i: int| 0 <= i < p.len() implies (#[trigger] p[i]).start <= p[i].end by {
                assert(p[i] == ivs[i]);
            }
        }
        lemma_fold_segments(p, ws);
        let fp = fold(p, ws);
        let cp = fp.cuts;
        let lastp = if cp.len() == 0 {
            0
        } else {
            cp.last()
        };
        let n = ivs.len() as int;
        assert forall|k: int| 0 <= k < cp.len() implies ivs.subrange(cut_before(cp, k), cp[k])
            == p.subrange(cut_before(cp, k), cp[k]) by {
            assert(ivs.subrange(cut_before(cp, k), cp[k]) =~= p.subrange(cut_before(cp, k), cp[k]));
        }
        let seg = ivs.subrange(lastp, n);
        assert(seg.drop_last() =~= p.subrange(lastp, n - 1));
        assert(seg.last() == ivs.last());
        let w = extend(fp.open, ivs.last());
        assert(merge(seg) == Some(w));
        let f = fold(ivs, ws);
        if w.span() >= ws {
            let c = f.cuts;
            assert(f.closed == fp.closed.push(w));
            assert(c == cp.push(n));
            assert(f.open is None);
            assert forall|k: int| 0 <= k < c.len() implies f.closed[k] == merge(
                ivs.subrange(cut_before(c, k), #[trigger] c[k]),
            )->0 && cut_before(c, k) < c[k] && 0 < c[k] <= n by {
                if k < cp.len() {
                    assert(cut_before(c, k) == cut_before(cp, k));
                    assert(c[k] == cp[k]);
                    assert(f.closed[k] == fp.closed[k]);
                } else {
                    assert(cut_before(c, k) == lastp);
                }
            }
            assert(ivs.subrange(n, n) =~= Seq::<Interval>::empty());
        } else {
            assert(f.closed == fp.closed);
            assert(f.cuts == cp);
            assert(f.open == Some(w));
            assert forall|k: int| 0 <= k < cp.len() implies f.closed[k] == merge(
                ivs.subrange(cut_before(cp, k), #[trigger] cp[k]),
            )->0 by {}
        }
    }
}

/// What the windows of one chromosome are made of: its intervals split into
/// non-empty consecutive runs, in order, each run folded into one window. So
/// every interval goes into exactly one window of its own chromosome.
pub proof fn lemma_windows_partition(ivs: Seq<Interval>, ws: int)
    requires
        intervals_valid(ivs),
    ensures
        ({
            let w = windows(ivs, ws);
            let c = window_cuts(ivs, ws);
            &&& c.len() == w.len()
            &&& is_partition(c, ivs.len() as int)
            &&& ivs.len() > 0 ==> c.len() > 0 && c.last() == ivs.len()
            &&& forall|k: int|
                0 <= k < c.len() ==> w[k] == merge(
                    ivs.subrange(cut_before(c, k), #[trigger] c[k]),
                )->0
        }),
{
    lemma_fold_segments(ivs, ws);
    let f = fold(ivs, ws);
    let c = window_cuts(ivs, ws);
    let w = windows(ivs, ws);
    let n = ivs.len() as int;
    let last = if f.cuts.len() == 0 {
        0
    } else {
        f.cuts.last()
    };
    if f.open is Some {
        assert(last < n) by {
            if last == n {
                assert(ivs.subrange(n, n) =~= Seq::<Interval>::empty());
            }
        }
        assert forall|k: int| 0 <= k < c.len() implies w[k] == merge(
            ivs.subrange(cut_before(c, k), #[trigger] c[k]),
        )->0 by {
            if k < f.cuts.len() {
                assert(cut_before(c, k) == cut_before(f.cuts, k));
            }
        }
        assert forall|k: int| 0 <= k < c.len() implies cut_before(c, k) < #[trigger] c[k] by {
            if k < f.cuts.len() {
                assert(cut_before(c, k) == cut_before(f.cuts, k));
            }
        }
    } else if n > 0 {
        assert(last == n) by {
            if last < n {
                assert(ivs.subrange(last, n).len() > 0);
            }
        }
    }
}

/// Every window but the last of a chromosome spans at least `ws` bases.
pub proof fn lemma_window_size_bound(ivs: Seq<Interval>, ws: int)
    requires
        intervals_valid(ivs),
    ensures
        forall|k: int|
            0 <= k < windows(ivs, ws).len() - 1 ==> (#[trigger] windows(ivs, ws)[k]).span() >= ws,
{
    lemma_fold_shape(ivs, ws);
    let f = fold(ivs, ws);
    assert forall|k: int| 0 <= k < windows(ivs, ws).len() - 1 implies (#[trigger] windows(
        ivs,
        ws,
    )[k]).span() >= ws by {
        assert(windows(ivs, ws)[k] == f.closed[k]);
    }
}

/// Sum of `rate * length` over `seg`.
pub open spec fn total_weight(seg: Seq<Interval>) -> int
    decreases seg.len(),
{
    if seg.len() == 0 {
        0
    } else {
        total_weight(seg.drop_last()) + weight(seg.last())
    }
}

/// Sum of the lengths of `seg`.
pub open spec fn total_length(seg: Seq<Interval>) -> int
    decreases seg.len(),
{
    if seg.len() == 0 {
        0
    } else {
        total_length(seg.drop_last()) + (seg.last().end - seg.last().start)
    }
}

/// Valid intervals, each starting where the one before it ends.
pub open spec fn tiled(ivs: Seq<Interval>) -> bool {
    &&& intervals_valid(ivs)
    &&& forall|i: int| 0 < i < ivs.len() ==> (#[trigger] ivs[i]).start == ivs[i - 1].end
}

proof fn lemma_merge_weight(seg: Seq<Interval>)
    requires
        seg.len() > 0,
    ensures
        merge(seg)->0.weighted == total_weight(seg),
    decreases seg.len(),
{
    if seg.len() > 1 {
        lemma_merge_weight(seg.drop_last());
    } else {
        assert(merge(seg.drop_last()) is None);
        assert(total_weight(seg.drop_last()) == 0);
    }
}

proof fn lemma_merge_tiled(seg: Seq<Interval>)
    requires
        seg.len() > 0,
        tiled(seg),
    ensures
        merge(seg)->0.start == seg[0].start,
        merge(seg)->0.end == seg.last().end,
        total_length(seg) == merge(seg)->0.span(),
    decreases seg.len(),
{
    let p = seg.drop_last();
    let n = seg.len() as int;
    assert(seg[n - 1].start <= seg[n - 1].end);
    if seg.len() > 1 {
        assert(tiled(p)) by {
            assert forall|i: int| 0 <= i < p.len() implies (#[trigger] p[i]).start <= p[i].end by {
                assert(p[i] == seg[i]);
            }
            assert forall|i: int| 0 < i < p.len() implies (#[trigger] p[i]).start == p[i - 1].end by {
                assert(p[i] == seg[i]);
                assert(seg[i].start == seg[i - 1].end);
            }
        }
        lemma_merge_tiled(p);
        assert(p[0] == seg[0]);
        assert(seg[n - 1].start == seg[n - 2].end);
        assert(p[0].start <= p.last().end) by {
            lemma_merge_valid(p);
        }
    } else {
        assert(merge(p) is None);
        assert(total_length(p) == 0);
        assert(seg.last() == seg[0]);
    }
}

proof fn lemma_merge_valid(seg: Seq<Interval>)
    requires
        seg.len() > 0,
        intervals_valid(seg),
    ensures
        merge(seg)->0.start <= merge(seg)->0.end,
        0 <= merge(seg)->0.start,
        merge(seg)->0.end <= usize::MAX,
        0 <= merge(seg)->0.weighted,
    decreases seg.len(),
{
    let p = seg.drop_last();
    assert(seg.last() == seg[seg.len() - 1]);
    crate::window::lemma_weight_nonneg(seg.last());
    if seg.len() > 1 {
        assert(intervals_valid(p)) by {
            assert forall|i: int| 0 <= i < p.len() implies (#[trigger] p[i]).start <= p[i].end by {
                assert(p[i] == seg[i]);
            }
        }
        lemma_merge_valid(p);
    }
}

proof fn lemma_sub_tiled(ivs: Seq<Interval>, a: int, b: int)
    requires
        tiled(ivs),
        0 <= a <= b <= ivs.len(),
    ensures
        tiled(ivs.subrange(a, b)),
{
    let s = ivs.subrange(a, b);
    assert forall|i: int| 0 <= i < s.len() implies (#[trigger] s[i]).start <= s[i].end by {
        assert(s[i] == ivs[a + i]);
    }
    assert forall|i: int| 0 < i < s.len() implies (#[trigger] s[i]).start == s[i - 1].end by {
        assert(s[i] == ivs[a + i]);
        assert(s[i - 1] == ivs[a + i - 1]);
    }
}

/// Window `k` of a chromosome carries the sum of `rate * length` over the run
/// of intervals folded into it; on tiled input its span is the sum of their
/// lengths, so `weighted / span` is their length-weighted mean rate.
pub proof fn lemma_window_weighted_mean(ivs: Seq<Interval>, ws: int, k: int)
    requires
        intervals_valid(ivs),
        0 <= k < windows(ivs, ws).len(),
    ensures
        ({
            let c = window_cuts(ivs, ws);
            let seg = ivs.subrange(cut_before(c, k), c[k]);
            &&& windows(ivs, ws)[k].weighted == total_weight(seg)
            &&& tiled(ivs) ==> windows(ivs, ws)[k].span() == total_length(seg)
        }),
{
    lemma_windows_partition(ivs, ws);
    let c = window_cuts(ivs, ws);
    let seg = ivs.subrange(cut_before(c, k), c[k]);
    assert(0 <= cut_before(c, k)) by {
        if k > 0 {
            assert(0 < c[k - 1]);
        }
    }
    lemma_merge_weight(seg);
    if tiled(ivs) {
        lemma_sub_tiled(ivs, cut_before(c, k), c[k]);
        lemma_merge_tiled(seg);
    }
}

/// On tiled input the windows of a chromosome cover exactly its intervals'
/// extent, in order, each starting where the one before it ends: no gaps, no
/// overlaps, starts never decreasing.
pub proof fn lemma_windows_cover(ivs: Seq<Interval>, ws: int)
    requires
        tiled(ivs),
        ivs.len() > 0,
    ensures
        ({
            let w = windows(ivs, ws);
            &&& w.len() > 0
            &&& w[0].start == ivs[0].start
            &&& w.last().end == ivs.last().end
            &&& forall|k: int| 0 <= k < w.len() ==> (#[trigger] w[k]).start <= w[k].end
            &&& forall|k: int| 0 <= k < w.len() - 1 ==> (#[trigger] w[k + 1]).start == w[k].end
        }),
{
    lemma_windows_partition(ivs, ws);
    let c = window_cuts(ivs, ws);
    let w = windows(ivs, ws);
    assert forall|k: int| 0 <= k < w.len() implies (#[trigger] w[k]).start == ivs[cut_before(
        c,
        k,
    )].start && w[k].end == ivs[c[k] - 1].end && w[k].start <= w[k].end by {
        assert(0 <= cut_before(c, k)) by {
            if k > 0 {
                assert(0 < c[k - 1]);
            }
        }
        let seg = ivs.subrange(cut_before(c, k), c[k]);
        lemma_sub_tiled(ivs, cut_before(c, k), c[k]);
        lemma_merge_tiled(seg);
        lemma_merge_valid(seg);
    }
    assert forall|k: int| 0 <= k < w.len() - 1 implies (#[trigger] w[k + 1]).start == w[k].end by {
        assert(cut_before(c, k + 1) == c[k]);
        assert(w[k + 1].start == ivs[c[k]].start);
        assert(0 < c[k]);
        assert(c[k] < c[k + 1]);
    }
    assert(w[0].start == ivs[cut_before(c, 0)].start);
    assert(w.last() == w[w.len() - 1]);
}

/// A window read back as an interval: the same span, and its mean rate,
/// rounded down, as the rate.
pub open spec fn as_interval(w: WindowModel) -> Interval {
    Interval {
        start: w.start as usize,
        end: w.end as usize,
        rate: (if w.span() > 0 {
            w.weighted / w.span()
        } else {
            0
        }) as u64,
    }
}

pub open spec fn as_intervals(w: Seq<WindowModel>) -> Seq<Interval> {
    w.map_values(|x: WindowModel| as_interval(x))
}

/// The windows with each weight replaced by what its read-back interval weighs.
pub open spec fn reweighed(w: Seq<WindowModel>) -> Seq<WindowModel> {
    w.map_values(
        |x: WindowModel| WindowModel { start: x.start, end: x.end, weighted: weight(as_interval(x)) },
    )
}

/// Every window's mean rate is a whole number of rate units that fits a `u64`.
pub open spec fn means_exact(w: Seq<WindowModel>) -> bool {
    forall|k: int|
        0 <= k < w.len() ==> (#[trigger] w[k]).span() > 0 && w[k].weighted % w[k].span() == 0
            && w[k].weighted / w[k].span() <= u64::MAX
}

pub open spec fn coords_fit(w: Seq<WindowModel>) -> bool {
    forall|k: int|
        0 <= k < w.len() ==> 0 <= (#[trigger] w[k]).start <= w[k].end <= usize::MAX && 0
            <= w[k].weighted
}

proof fn lemma_rerun_prefix(w: Seq<WindowModel>, ws: int, j: int)
    requires
        0 <= j <= w.len(),
        coords_fit(w),
        forall|k: int| 0 <= k < j ==> (#[trigger] w[k]).span() >= ws,
    ensures
        fold(as_intervals(w).take(j), ws).closed == reweighed(w).take(j),
        fold(as_intervals(w).take(j), ws).open is None,
    decreases j,
{
    let v = as_intervals(w);
    if j == 0 {
        assert(reweighed(w).take(0) =~= Seq::<WindowModel>::empty());
    } else {
        lemma_rerun_prefix(w, ws, j - 1);
        let t = v.take(j);
        assert(t.drop_last() =~= v.take(j - 1));
        assert(t.last() == as_interval(w[j - 1]));
        assert(extend(None, t.last()) == reweighed(w)[j - 1]);
        assert(reweighed(w).take(j) =~= reweighed(w).take(j - 1).push(reweighed(w)[j - 1]));
    }
}

proof fn lemma_window_fits(ivs: Seq<Interval>, ws: int, k: int)
    requires
        intervals_valid(ivs),
        0 <= k < windows(ivs, ws).len(),
    ensures
        0 <= windows(ivs, ws)[k].start <= windows(ivs, ws)[k].end <= usize::MAX,
        0 <= windows(ivs, ws)[k].weighted,
{
    lemma_windows_partition(ivs, ws);
    let c = window_cuts(ivs, ws);
    assert(0 <= cut_before(c, k)) by {
        if k > 0 {
            assert(0 < c[k - 1]);
        }
    }
    let seg = ivs.subrange(cut_before(c, k), c[k]);
    lemma_sub_valid(ivs, cut_before(c, k), c[k]);
    lemma_merge_valid(seg);
}

proof fn lemma_sub_valid(ivs: Seq<Interval>, a: int, b: int)
    requires
        intervals_valid(ivs),
        0 <= a <= b <= ivs.len(),
    ensures
        intervals_valid(ivs.subrange(a, b)),
{
    let s = ivs.subrange(a, b);
    assert forall|i: int| 0 <= i < s.len() implies (#[trigger] s[i]).start <= s[i].end by {
        assert(s[i] == ivs[a + i]);
    }
}

proof fn lemma_windows_coords_fit(ivs: Seq<Interval>, ws: int)
    requires
        intervals_valid(ivs),
    ensures
        coords_fit(windows(ivs, ws)),
{
    let w = windows(ivs, ws);
    assert forall|k: int| 0 <= k < w.len() implies 0 <= (#[trigger] w[k]).start <= w[k].end
        <= usize::MAX && 0 <= w[k].weighted by {
        lemma_window_fits(ivs, ws, k);
    }
}

proof fn lemma_reweighed_exact(w: Seq<WindowModel>)
    requires
        coords_fit(w),
        means_exact(w),
    ensures
        reweighed(w) == w,
{
    let rw = reweighed(w);
    assert forall|k: int| 0 <= k < w.len() implies #[trigger] rw[k] == w[k] by {
        let x = w[k];
        let q = x.weighted / x.span();
        vstd::arithmetic::div_mod::lemma_fundamental_div_mod(x.weighted, x.span());
        assert(0 <= q) by (nonlinear_arith)
            requires
                0 <= x.weighted,
                0 < x.span(),
                q == x.weighted / x.span(),
        ;
        assert(q * x.span() == x.weighted) by (nonlinear_arith)
            requires
                x.weighted == x.span() * q + x.weighted % x.span(),
                x.weighted % x.span() == 0,
        ;
        assert(as_interval(x).rate == q);
        assert(weight(as_interval(x)) == q * x.span());
    }
    assert(rw =~= w);
}

/// Aggregating a chromosome's windows again, read back as intervals, with the
/// same window size gives the same spans in the same order, each with the
/// weight of its read-back interval; where every mean rate is exact, it gives
/// the same windows.
pub proof fn lemma_rerun_fixed_point(ivs: Seq<Interval>, ws: int)
    requires
        intervals_valid(ivs),
    ensures
        windows(as_intervals(windows(ivs, ws)), ws) == reweighed(windows(ivs, ws)),
        means_exact(windows(ivs, ws)) ==> windows(as_intervals(windows(ivs, ws)), ws) == windows(
            ivs,
            ws,
        ),
{
    let w = windows(ivs, ws);
    let m = w.len() as int;
    let v = as_intervals(w);
    let rw = reweighed(w);
    lemma_window_size_bound(ivs, ws);
    lemma_windows_coords_fit(ivs, ws);
    if m == 0 {
        assert(v =~= Seq::<Interval>::empty());
        assert(rw =~= Seq::<WindowModel>::empty());
    } else if w[m - 1].span() >= ws {
        lemma_rerun_prefix(w, ws, m);
        assert(v.take(m) =~= v);
        assert(rw.take(m) =~= rw);
    } else {
        lemma_rerun_prefix(w, ws, m - 1);
        let t = v.take(m);
        assert(t =~= v);
        assert(t.drop_last() =~= v.take(m - 1));
        assert(t.last() == as_interval(w[m - 1]));
        assert(extend(None, t.last()) == rw[m - 1]);
        assert(rw =~= rw.take(m - 1).push(rw[m - 1]));
    }
    if means_exact(w) {
        lemma_reweighed_exact(w);
    }
}

/// A line whose end coordinate reads as 0 changes nothing: appending it to a
/// table's lines leaves the loaded table as it was.
pub proof fn lemma_zero_end_row_dropped(lines: Seq<Seq<char>>, line: Seq<char>)
    requires
        lines.len() >= 1,
        row_of(line) matches Some((name, iv)) && iv.end == 0,
    ensures
        load(lines.push(line)) == load(lines),
{
    assert(lines.push(line).drop_last() =~= lines);
}

/// No interval of a loaded table ends at 0.
pub proof fn lemma_loaded_ends_nonzero(lines: Seq<Seq<char>>)
    requires
        load(lines) is Ok,
    ensures
        forall|k: int, i: int|
            0 <= k < load(lines)->Ok_0.len() && 0 <= i < load(lines)->Ok_0[k].1.len() ==> (
            #[trigger] load(lines)->Ok_0[k].1[i]).end != 0,
    decreases lines.len(),
{
    if lines.len() > 1 {
        let p = lines.drop_last();
        lemma_loaded_ends_nonzero(p);
        let t = load(p)->Ok_0;
        let (name, iv) = row_of(lines.last())->0;
        if iv.end != 0 {
            let nt = add_row(t, name, iv);
            let f = find_name(t, name);
            lemma_find_name_range(t, name);
            lemma_insert_pos_range(t, name);
            let q = insert_pos(t, name);
            assert forall|k: int, i: int| 0 <= k < nt.len() && 0 <= i < nt[k].1.len() implies (
            #[trigger] nt[k].1[i]).end != 0 by {
                if f < 0 {
                    if k < q {
                        assert(nt[k] == t[k]);
                    } else if k > q {
                        assert(nt[k] == t[k - 1]);
                    }
                } else if k < t.len() && k != f {
                    assert(nt[k] == t[k]);
                } else if k < t.len() {
                    if i < t[k].1.len() {
                        assert(nt[k].1[i] == t[k].1[i]);
                    }
                }
            }
        }
    }
}

proof fn lemma_insert_pos_range(t: Seq<(Seq<char>, Seq<Interval>)>, name: Seq<char>)
    ensures
        0 <= insert_pos(t, name) <= t.len(),
    decreases t.len(),
{
    if t.len() > 0 {
        lemma_insert_pos_range(t.drop_first(), name);
    }
}

proof fn lemma_find_name_range(t: Seq<(Seq<char>, Seq<Interval>)>, name: Seq<char>)
    ensures
        -1 <= find_name(t, name) < t.len(),
    decreases t.len(),
{
    if t.len() > 0 {
        lemma_find_name_range(t.drop_last(), name);
    }
}

proof fn lemma_name_lt_irreflexive(a: Seq<char>)
    ensures
        !name_lt(a, a),
    decreases a.len(),
{
    if a.len() > 0 {
        lemma_name_lt_irreflexive(a.drop_first());
    }
}

proof fn lemma_name_lt_transitive(a: Seq<char>, b: Seq<char>, c: Seq<char>)
    requires
        name_lt(a, b),
        name_lt(b, c),
    ensures
        name_lt(a, c),
    decreases a.len(),
{
    if a.len() > 0 && a[0] == b[0] && b[0] == c[0] {
        lemma_name_lt_transitive(a.drop_first(), b.drop_first(), c.drop_first());
    }
}

proof fn lemma_name_lt_total(a: Seq<char>, b: Seq<char>)
    requires
        a != b,
    ensures
        name_lt(a, b) || name_lt(b, a),
    decreases a.len(),
{
    if a.len() > 0 && b.len() > 0 {
        if a[0] == b[0] {
            if a.drop_first() == b.drop_first() {
                assert(a =~= seq![a[0]] + a.drop_first());
                assert(b =~= seq![b[0]] + b.drop_first());
            }
            lemma_name_lt_total(a.drop_first(), b.drop_first());
        } else {
            assert(a[0] < b[0] || b[0] < a[0]);
        }
    } else if a.len() == 0 && b.len() == 0 {
        assert(a =~= b);
    }
}

/// Names strictly ascending, hence also distinct.
pub open spec fn names_ascending(t: Seq<(Seq<char>, Seq<Interval>)>) -> bool {
    forall|i: int, j: int| 0 <= i < j < t.len() ==> name_lt(#[trigger] t[i].0, #[trigger] t[j].0)
}

proof fn lemma_find_name_absent(t: Seq<(Seq<char>, Seq<Interval>)>, name: Seq<char>)
    requires
        find_name(t, name) == -1,
    ensures
        forall|i: int| 0 <= i < t.len() ==> (#[trigger] t[i]).0 != name,
    decreases t.len(),
{
    if t.len() > 0 {
        lemma_find_name_absent(t.drop_last(), name);
        assert forall|i: int| 0 <= i < t.len() implies (#[trigger] t[i]).0 != name by {
            if i < t.len() - 1 {
                assert(t[i] == t.drop_last()[i]);
            }
        }
    }
}

proof fn lemma_insert_pos_bounds(t: Seq<(Seq<char>, Seq<Interval>)>, name: Seq<char>)
    ensures
        0 <= insert_pos(t, name) <= t.len(),
        forall|i: int| 0 <= i < insert_pos(t, name) ==> !name_lt(name, (#[trigger] t[i]).0),
        insert_pos(t, name) < t.len() ==> name_lt(name, t[insert_pos(t, name)].0),
    decreases t.len(),
{
    if t.len() > 0 && !name_lt(name, t[0].0) {
        let r = t.drop_first();
        lemma_insert_pos_bounds(r, name);
        assert forall|i: int| 0 <= i < insert_pos(t, name) implies !name_lt(
            name,
            (#[trigger] t[i]).0,
        ) by {
            if i > 0 {
                assert(t[i] == r[i - 1]);
            }
        }
        if insert_pos(t, name) < t.len() {
            assert(t[insert_pos(t, name)] == r[insert_pos(r, name)]);
        }
    }
}

/// A loaded table lists its chromosomes in strictly ascending name order, so
/// no name appears twice.
pub proof fn lemma_loaded_names_ascending(lines: Seq<Seq<char>>)
    requires
        load(lines) is Ok,
    ensures
        names_ascending(load(lines)->Ok_0),
    decreases lines.len(),
{
    if lines.len() > 1 {
        let p = lines.drop_last();
        lemma_loaded_names_ascending(p);
        let t = load(p)->Ok_0;
        let (name, iv) = row_of(lines.last())->0;
        if iv.end != 0 {
            let nt = add_row(t, name, iv);
            let f = find_name(t, name);
            lemma_find_name_range(t, name);
            if f < 0 {
                lemma_find_name_absent(t, name);
                lemma_insert_pos_bounds(t, name);
                let q = insert_pos(t, name);
                assert forall|i: int, j: int| 0 <= i < j < nt.len() implies name_lt(
                    #[trigger] nt[i].0,
                    #[trigger] nt[j].0,
                ) by {
                    if i < q {
                        assert(nt[i] == t[i]);
                        assert(name_lt(t[i].0, name)) by {
                            lemma_name_lt_total(t[i].0, name);
                        }
                        if j == q {
                            assert(nt[j].0 == name);
                        } else if j > q {
                            assert(nt[j] == t[j - 1]);
                            if j - 1 > i {
                                assert(name_lt(t[i].0, t[j - 1].0));
                            } else {
                                assert(j - 1 == q);
                                lemma_name_lt_transitive(t[i].0, name, t[q].0);
                            }
                        } else {
                            assert(nt[j] == t[j]);
                        }
                    } else if i == q {
                        assert(nt[i].0 == name);
                        assert(nt[j] == t[j - 1]);
                        if j - 1 > q {
                            assert(name_lt(t[q].0, t[j - 1].0));
                            lemma_name_lt_transitive(name, t[q].0, t[j - 1].0);
                        }
                    } else {
                        assert(nt[i] == t[i - 1]);
                        assert(nt[j] == t[j - 1]);
                    }
                }
            } else {
                assert forall|i: int, j: int| 0 <= i < j < nt.len() implies name_lt(
                    #[trigger] nt[i].0,
                    #[trigger] nt[j].0,
                ) by {
                    assert(nt[i].0 == t[i].0);
                    assert(nt[j].0 == t[j].0);
                }
            }
        }
    }
}

proof fn lemma_merge_bounds(seg: Seq<Interval>)
    requires
        seg.len() > 0,
    ensures
        forall|i: int|
            0 <= i < seg.len() ==> merge(seg)->0.start <= (#[trigger] seg[i]).start && seg[i].end
                <= merge(seg)->0.end,
        exists|i: int| 0 <= i < seg.len() && merge(seg)->0.start == (#[trigger] seg[i]).start,
        exists|j: int| 0 <= j < seg.len() && merge(seg)->0.end == (#[trigger] seg[j]).end,
    decreases seg.len(),
{
    let p = seg.drop_last();
    let n = seg.len() - 1;
    assert(seg.last() == seg[n]);
    if seg.len() == 1 {
        assert(merge(p) is None);
    } else {
        lemma_merge_bounds(p);
        let w = merge(p)->0;
        assert forall|i: int| 0 <= i < seg.len() implies merge(seg)->0.start <= (
        #[trigger] seg[i]).start && seg[i].end <= merge(seg)->0.end by {
            if i < n {
                assert(seg[i] == p[i]);
            }
        }
        let i0 = choose|i: int| 0 <= i < p.len() && w.start == (#[trigger] p[i]).start;
        let j0 = choose|j: int| 0 <= j < p.len() && w.end == (#[trigger] p[j]).end;
        assert(seg[i0] == p[i0]);
        assert(seg[j0] == p[j0]);
        if seg[n].start < w.start {
            assert(merge(seg)->0.start == seg[n].start);
        } else {
            assert(merge(seg)->0.start == seg[i0].start);
        }
        if seg[n].end > w.end {
            assert(merge(seg)->0.end == seg[n].end);
        } else {
            assert(merge(seg)->0.end == seg[j0].end);
        }
    }
}

proof fn lemma_window_is_merge(ivs: Seq<Interval>, ws: int, k: int)
    requires
        intervals_valid(ivs),
        0 <= k < windows(ivs, ws).len(),
    ensures
        0 <= cut_before(window_cuts(ivs, ws), k) < window_cuts(ivs, ws)[k] <= ivs.len(),
        windows(ivs, ws)[k] == merge(
            ivs.subrange(cut_before(window_cuts(ivs, ws), k), window_cuts(ivs, ws)[k]),
        )->0,
{
    lemma_windows_partition(ivs, ws);
    let c = window_cuts(ivs, ws);
    assert(0 <= cut_before(c, k)) by {
        if k > 0 {
            assert(0 < c[k - 1]);
        }
    }
    assert(cut_before(c, k) < c[k] <= ivs.len());
}

/// Window `k` of a chromosome starts at the smallest start and ends at the
/// largest end among the intervals of its run.
pub proof fn lemma_window_bounds(ivs: Seq<Interval>, ws: int, k: int)
    requires
        intervals_valid(ivs),
        0 <= k < windows(ivs, ws).len(),
    ensures
        ({
            let c = window_cuts(ivs, ws);
            let w = windows(ivs, ws)[k];
            &&& 0 <= cut_before(c, k) < c[k] <= ivs.len()
            &&& forall|i: int|
                cut_before(c, k) <= i < c[k] ==> w.start <= (#[trigger] ivs[i]).start && ivs[i].end
                    <= w.end
            &&& exists|i: int| cut_before(c, k) <= i < c[k] && w.start == (#[trigger] ivs[i]).start
            &&& exists|j: int| cut_before(c, k) <= j < c[k] && w.end == (#[trigger] ivs[j]).end
        }),
{
    let c = window_cuts(ivs, ws);
    let a = cut_before(c, k);
    lemma_window_is_merge(ivs, ws, k);
    let seg = ivs.subrange(a, c[k]);
    lemma_merge_bounds(seg);
    let w = windows(ivs, ws)[k];
    assert forall|i: int| a <= i < c[k] implies w.start <= (#[trigger] ivs[i]).start && ivs[i].end
        <= w.end by {
        assert(seg[i - a] == ivs[i]);
    }
    let i0 = choose|i: int| 0 <= i < seg.len() && w.start == (#[trigger] seg[i]).start;
    let j0 = choose|j: int| 0 <= j < seg.len() && w.end == (#[trigger] seg[j]).end;
    assert(ivs[a + i0] == seg[i0]);
    assert(ivs[a + j0] == seg[j0]);
}

/// Starts never decrease from one interval to a later one.
pub open spec fn starts_sorted(ivs: Seq<Interval>) -> bool {
    forall|i: int, j: int| 0 <= i <= j < ivs.len() ==> (#[trigger] ivs[i]).start <= (
    #[trigger] ivs[j]).start
}

/// No interval ends after a later one starts.
pub open spec fn disjoint_in_order(ivs: Seq<Interval>) -> bool {
    forall|i: int, j: int| 0 <= i < j < ivs.len() ==> (#[trigger] ivs[i]).end <= (
    #[trigger] ivs[j]).start
}

/// On input sorted by start, a chromosome's window starts never decrease; if
/// its intervals also do not overlap, neither do its windows.
pub proof fn lemma_windows_ordered(ivs: Seq<Interval>, ws: int)
    requires
        intervals_valid(ivs),
        starts_sorted(ivs),
    ensures
        forall|k: int|
            0 <= k < windows(ivs, ws).len() - 1 ==> (#[trigger] windows(ivs, ws)[k]).start
                <= windows(ivs, ws)[k + 1].start,
        disjoint_in_order(ivs) ==> forall|k: int|
            0 <= k < windows(ivs, ws).len() - 1 ==> (#[trigger] windows(ivs, ws)[k]).end
                <= windows(ivs, ws)[k + 1].start,
{
    let w = windows(ivs, ws);
    let c = window_cuts(ivs, ws);
    lemma_windows_partition(ivs, ws);
    assert forall|k: int| 0 <= k < w.len() - 1 implies (#[trigger] w[k]).start <= w[k + 1].start
        && (disjoint_in_order(ivs) ==> w[k].end <= w[k + 1].start) by {
        lemma_window_bounds(ivs, ws, k);
        lemma_window_bounds(ivs, ws, k + 1);
        assert(cut_before(c, k + 1) == c[k]);
        let i0 = choose|i: int| cut_before(c, k) <= i < c[k] && w[k].start == (#[trigger] ivs[i]).start;
        let j0 = choose|j: int| cut_before(c, k) <= j < c[k] && w[k].end == (#[trigger] ivs[j]).end;
        let i1 = choose|i: int| c[k] <= i < c[k + 1] && w[k + 1].start == (#[trigger] ivs[i]).start;
        assert(ivs[i0].start <= ivs[i1].start);
        if disjoint_in_order(ivs) {
            assert(ivs[j0].end <= ivs[i1].start);
        }
    }
}

/// How many data lines of `lines` (all but the first) name chromosome `name`
/// and have an end that does not read as 0.
pub open spec fn kept_rows(lines: Seq<Seq<char>>, name: Seq<char>) -> int
    decreases lines.len(),
{
    if lines.len() <= 1 {
        0
    } else {
        kept_rows(lines.drop_last(), name) + match row_of(lines.last()) {
            Some(row) => if row.0 == name && row.1.end != 0 {
                1int
            } else {
                0int
            },
            None => 0int,
        }
    }
}

proof fn lemma_find_name_found(t: Seq<(Seq<char>, Seq<Interval>)>, name: Seq<char>)
    requires
        find_name(t, name) >= 0,
    ensures
        t[find_name(t, name)].0 == name,
    decreases t.len(),
{
    if t.len() > 0 && t.last().0 != name {
        lemma_find_name_found(t.drop_last(), name);
        lemma_find_name_range(t.drop_last(), name);
        assert(t[find_name(t, name)] == t.drop_last()[find_name(t, name)]);
    }
}

/// In a loaded table each chromosome holds one interval for each data line
/// that names it and whose end does not read as 0, and a chromosome with no
/// such line has no entry: rows whose end reads as 0 are not counted.
pub proof fn lemma_loaded_counts(lines: Seq<Seq<char>>)
    requires
        load(lines) is Ok,
    ensures
        forall|k: int|
            0 <= k < load(lines)->Ok_0.len() ==> (#[trigger] load(lines)->Ok_0[k]).1.len()
                == kept_rows(lines, load(lines)->Ok_0[k].0),
        forall|name: Seq<char>|
            (forall|k: int|
                0 <= k < load(lines)->Ok_0.len() ==> (#[trigger] load(lines)->Ok_0[k]).0 != name)
                ==> #[trigger] kept_rows(lines, name) == 0,
    decreases lines.len(),
{
    if lines.len() > 1 {
        let p = lines.drop_last();
        lemma_loaded_counts(p);
        lemma_loaded_names_ascending(p);
        let t = load(p)->Ok_0;
        let (name, iv) = row_of(lines.last())->0;
        let nt = load(lines)->Ok_0;
        if iv.end != 0 {
            let f = find_name(t, name);
            lemma_find_name_range(t, name);
            if f < 0 {
                lemma_find_name_absent(t, name);
                lemma_insert_pos_range(t, name);
                let q = insert_pos(t, name);
                assert(kept_rows(p, name) == 0);
                assert forall|k: int| 0 <= k < nt.len() implies (#[trigger] nt[k]).1.len()
                    == kept_rows(lines, nt[k].0) by {
                    if k < q {
                        assert(nt[k] == t[k]);
                    } else if k > q {
                        assert(nt[k] == t[k - 1]);
                    }
                }
                assert forall|x: Seq<char>|
                    (forall|k: int| 0 <= k < nt.len() ==> (#[trigger] nt[k]).0 != x) implies #[trigger] kept_rows(
                    lines,
                    x,
                ) == 0 by {
                    assert(nt[q].0 == name);
                    assert forall|k: int| 0 <= k < t.len() implies (#[trigger] t[k]).0 != x by {
                        if k < q {
                            assert(nt[k] == t[k]);
                        } else {
                            assert(nt[k + 1] == t[k]);
                        }
                    }
                    assert(kept_rows(p, x) == 0);
                    assert(name != x);
                }
            } else {
                lemma_find_name_found(t, name);
                assert forall|k: int| 0 <= k < nt.len() implies (#[trigger] nt[k]).1.len()
                    == kept_rows(lines, nt[k].0) by {
                    if k != f {
                        assert(nt[k] == t[k]);
                        if t[k].0 == name {
                            if k < f {
                                assert(name_lt(t[k].0, t[f].0));
                            } else {
                                assert(name_lt(t[f].0, t[k].0));
                            }
                            lemma_name_lt_irreflexive(name);
                        }
                    }
                }
                assert forall|x: Seq<char>|
                    (forall|k: int| 0 <= k < nt.len() ==> (#[trigger] nt[k]).0 != x) implies #[trigger] kept_rows(
                    lines,
                    x,
                ) == 0 by {
                    assert(nt[f].0 == name);
                    assert forall|k: int| 0 <= k < t.len() implies (#[trigger] t[k]).0 != x by {
                        assert(nt[k].0 == t[k].0);
                    }
                    assert(kept_rows(p, x) == 0);
                    assert(name != x);
                }
            }
        } else {
            assert(nt == t);
            assert forall|k: int| 0 <= k < nt.len() implies (#[trigger] nt[k]).1.len() == kept_rows(
                lines,
                nt[k].0,
            ) by {}
            assert forall|x: Seq<char>|
                (forall|k: int| 0 <= k < nt.len() ==> (#[trigger] nt[k]).0 != x) implies #[trigger] kept_rows(
                lines,
                x,
            ) == 0 by {
                assert(kept_rows(p, x) == 0);
            }
        }
    }
}

/// A line whose end coordinate reads as 0 changes nothing wherever it stands
/// after the header: with or without it the lines load alike (the line index
/// of a later malformed row aside), and where they load, to the same table.
pub proof fn lemma_zero_end_row_anywhere(pre: Seq<Seq<char>>, line: Seq<char>, post: Seq<Seq<char>>)
    requires
        pre.len() >= 1,
        row_of(line) matches Some((name, iv)) && iv.end == 0,
    ensures
        (load(pre + seq![line] + post) is Ok) == (load(pre + post) is Ok),
        load(pre + post) is Ok ==> load(pre + seq![line] + post) == load(pre + post),
    decreases post.len(),
{
    if post.len() == 0 {
        assert(pre + seq![line] + post =~= pre.push(line));
        assert(pre + post =~= pre);
        lemma_zero_end_row_dropped(pre, line);
    } else {
        let q = post.drop_last();
        lemma_zero_end_row_anywhere(pre, line, q);
        let w = pre + seq![line] + post;
        let wo = pre + post;
        assert(w.drop_last() =~= pre + seq![line] + q);
        assert(wo.drop_last() =~= pre + q);
        assert(w.last() == post.last());
        assert(wo.last() == post.last());
    }
}

} // verus!
