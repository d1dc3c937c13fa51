use vstd::prelude::*;

use crate::interval::Interval;

verus! {

/// The mathematical value of a window: its span `[start, end)` and the sum of
/// `rate * length` over the intervals folded into it.
pub struct WindowModel {
    pub start: int,
    pub end: int,
    pub weighted: int,
}

impl WindowModel {
    pub open spec fn span(self) -> int {
        self.end - self.start
    }
}

/// One closed window. Its mean rate, in billionths, is
/// `weighted_rate / (end - start)`.
#[derive(Clone, Copy, Debug, PartialEq, Eq)]
pub struct Window {
    pub start: usize,
    pub end: usize,
    pub weighted_rate: u128,
}

impl View for Window {
    type V = WindowModel;

    open spec fn view(&self) -> WindowModel {
        WindowModel { start: self.start as int, end: self.end as int, weighted: self.weighted_rate as int }
    }
}

/// Why aggregation produced no windows.
#[derive(Clone, Copy, Debug, PartialEq, Eq)]
pub enum AggregateError {
    /// A window would span no bases, so its mean rate is undefined.
    InvalidWindow,
    /// A window's weighted rate sum does not fit in 128 bits.
    WeightOverflow,
}

pub open spec fn views(s: Seq<Window>) -> Seq<WindowModel> {
    s.map_values(|w: Window| w@)
}

pub open spec fn opt_view(o: Option<Window>) -> Option<WindowModel> {
    match o {
        Some(w) => Some(w@),
        None => None,
    }
}

/// Every interval ends at or after its start.
pub open spec fn intervals_valid(ivs: Seq<Interval>) -> bool {
    forall|i: int| 0 <= i < ivs.len() ==> (#[trigger] ivs[i]).start <= ivs[i].end
}

/// What an interval adds to a window's weighted rate sum.
pub open spec fn weight(v: Interval) -> int {
    v.rate * (v.end - v.start)
}

/// The open window after folding in `v`.
pub open spec fn extend(w: Option<WindowModel>, v: Interval) -> WindowModel {
    match w {
        None => WindowModel { start: v.start as int, end: v.end as int, weighted: weight(v) },
        Some(w) => WindowModel {
            start: if v.start < w.start { v.start as int } else { w.start },
            end: if v.end > w.end { v.end as int } else { w.end },
            weighted: w.weighted + weight(v),
        },
    }
}

/// The state of the scan: the windows closed so far, the index just past the
/// last interval of each, and the window still open.
pub struct Fold {
    pub closed: Seq<WindowModel>,
    pub cuts: Seq<int>,
    pub open: Option<WindowModel>,
}

/// Scan of `ivs` in order: each interval is folded into the open window, and
/// the window closes as soon as its span reaches `ws`.
pub open spec fn fold(ivs: Seq<Interval>, ws: int) -> Fold
    decreases ivs.len(),
{
    if ivs.len() == 0 {
        Fold { closed: seq![], cuts: seq![], open: None }
    } else {
        let f = fold(ivs.drop_last(), ws);
        let w = extend(f.open, ivs.last());
        if w.span() >= ws {
            Fold { closed: f.closed.push(w), cuts: f.cuts.push(ivs.len() as int), open: None }
        } else {
            Fold { closed: f.closed, cuts: f.cuts, open: Some(w) }
        }
    }
}

/// The windows of one chromosome: those closed by the scan, then the one
/// left open at the end, if any.
pub open spec fn windows(ivs: Seq<Interval>, ws: int) -> Seq<WindowModel> {
    let f = fold(ivs, ws);
    match f.open {
        Some(w) => f.closed.push(w),
        None => f.closed,
    }
}

/// For each window, the index just past its last interval.
pub open spec fn window_cuts(ivs: Seq<Interval>, ws: int) -> Seq<int> {
    let f = fold(ivs, ws);
    match f.open {
        Some(w) => f.cuts.push(ivs.len() as int),
        None => f.cuts,
    }
}

pub open spec fn has_overflow(ws: Seq<WindowModel>) -> bool {
    exists|k: int| 0 <= k < ws.len() && (#[trigger] ws[k]).weighted > u128::MAX
}

pub open spec fn has_empty_span(ws: Seq<WindowModel>) -> bool {
    exists|k: int| 0 <= k < ws.len() && (#[trigger] ws[k]).start == ws[k].end
}

/// Outcome of aggregating one chromosome's intervals.
pub open spec fn windows_result(ivs: Seq<Interval>, ws: int) -> Result<Seq<WindowModel>, AggregateError> {
    let w = windows(ivs, ws);
    if has_overflow(w) {
        Err(AggregateError::WeightOverflow)
    } else if has_empty_span(w) {
        Err(AggregateError::InvalidWindow)
    } else {
        Ok(w)
    }
}

pub proof fn lemma_weight_nonneg(v: Interval)
    requires
        v.start <= v.end,
    ensures
        0 <= weight(v) <= u64::MAX * u64::MAX,
        weight(v) <= u64::MAX * (v.end - v.start),
{
    let len = v.end - v.start;
    assert(0 <= v.rate * len) by (nonlinear_arith)
        requires
            0 <= len,
            0 <= v.rate,
    ;
    assert(v.rate * len <= u64::MAX * len) by (nonlinear_arith)
        requires
            0 <= len,
            v.rate <= u64::MAX,
    ;
    assert(u64::MAX * len <= u64::MAX * u64::MAX) by (nonlinear_arith)
        requires
            0 <= len <= u64::MAX,
    ;
}

/// Open windows keep `start <= end`, and the scan's closed windows only grow.
pub proof fn lemma_fold_shape(ivs: Seq<Interval>, ws: int)
    requires
        intervals_valid(ivs),
    ensures
        fold(ivs, ws).closed.len() == fold(ivs, ws).cuts.len(),
        fold(ivs, ws).open is Some ==> fold(ivs, ws).open->0.start <= fold(ivs, ws).open->0.end
            && fold(ivs, ws).open->0.weighted >= 0,
        forall|k: int|
            0 <= k < fold(ivs, ws).closed.len() ==> (#[trigger] fold(ivs, ws).closed[k]).span()
                >= ws,
    decreases ivs.len(),
{
    if ivs.len() > 0 {
        let p = ivs.drop_last();
        assert(intervals_valid(p)) by {
            assert forall|i: int| 0 <= i < p.len() implies (#[trigger] p[i]).start <= p[i].end by {
                assert(p[i] == ivs[i]);
            }
        }
        lemma_fold_shape(p, ws);
        assert(ivs.last() == ivs[ivs.len() - 1]);
        lemma_weight_nonneg(ivs.last());
    }
}

/// Between two points of the scan, what was closed stays closed, and what was
/// open ends up, with at least the same weight, either still open or closed
/// right after the earlier closed windows.
pub proof fn lemma_fold_grows(ivs: Seq<Interval>, ws: int, i: int, j: int)
    requires
        intervals_valid(ivs),
        0 <= i <= j <= ivs.len(),
    ensures
        ({
            let fi = fold(ivs.take(i), ws);
            let fj = fold(ivs.take(j), ws);
            &&& fi.closed.len() <= fj.closed.len()
            &&& fj.closed.subrange(0, fi.closed.len() as int) == fi.closed
            &&& fi.open matches Some(w) ==> ((fj.closed.len() > fi.closed.len()
                && fj.closed[fi.closed.len() as int].weighted >= w.weighted) || (fj.closed
                == fi.closed && fj.open is Some && fj.open->0.weighted >= w.weighted))
        }),
    decreases j - i,
{
    if j > i {
        lemma_fold_grows(ivs, ws, i, j - 1);
        let t = ivs.take(j);
        assert(t.drop_last() =~= ivs.take(j - 1));
        assert(t.last() == ivs[j - 1]);
        lemma_weight_nonneg(ivs[j - 1]);
        let fi = fold(ivs.take(i), ws);
        let fj = fold(t, ws);
        assert(fj.closed.subrange(0, fi.closed.len() as int) =~= fi.closed);
    } else {
        assert(fold(ivs.take(j), ws).closed.subrange(0, fold(ivs.take(i), ws).closed.len() as int)
            =~= fold(ivs.take(i), ws).closed);
    }
}

/// Aggregates one chromosome's intervals, in order, into windows whose span
/// reaches `window_size`; the last window may be shorter.
pub fn window_intervals(ivs: &Vec<Interval>, window_size: usize) -> (r: Result<
    Vec<Window>,
    AggregateError,
>)
    requires
        window_size > 0,
        intervals_valid(ivs@),
    ensures
        match r {
            Ok(out) => windows_result(ivs@, window_size as int) == Ok::<
                Seq<WindowModel>,
                AggregateError,
            >(views(out@)),
            Err(e) => windows_result(ivs@, window_size as int) == Err::<
                Seq<WindowModel>,
                AggregateError,
            >(e),
        },
{
    let ghost ws = window_size as int;
    let n = ivs.len();
    let mut out: Vec<Window> = Vec::new();
    let mut open: Option<Window> = None;
    let mut i: usize = 0;
    while i < n
        invariant
            n == ivs@.len(),
            0 <= i <= n,
            ws == window_size as int,
            window_size > 0,
            intervals_valid(ivs@),
            fold(ivs@.take(i as int), ws).closed == views(out@),
            fold(ivs@.take(i as int), ws).open == opt_view(open),
            open matches Some(w) ==> w.start <= w.end,
            forall|k: int| 0 <= k < out@.len() ==> (#[trigger] out@[k]).end - out@[k].start >= ws,
        decreases n - i,
    {
        let v = ivs[i];
        assert(ivs@.take(i + 1).drop_last() =~= ivs@.take(i as int));
        assert(ivs@.take(i + 1).last() == ivs@[i as int]);
        assert(v.start <= v.end);
        proof {
            lemma_weight_nonneg(v);
        }
        let len: u128 = (v.end - v.start) as u128;
        let add: u128 = (v.rate as u128) * len;
        let cur: Window = match open {
            None => Window { start: v.start, end: v.end, weighted_rate: add },
            Some(w) => {
                if w.weighted_rate > u128::MAX - add {
                    proof {
                        lemma_overflow_reaches_end(ivs@, ws, i as int);
                    }
                    return Err(AggregateError::WeightOverflow);
                }
                Window {
                    start: if v.start < w.start { v.start } else { w.start },
                    end: if v.end > w.end { v.end } else { w.end },
                    weighted_rate: w.weighted_rate + add,
                }
            },
        };
        assert(cur@ == extend(opt_view(open), v));
        if cur.end - cur.start >= window_size {
            out.push(cur);
            open = None;
        } else {
            open = Some(cur);
        }
        i = i + 1;
        assert(views(out@) =~= fold(ivs@.take(i as int), ws).closed);
    }
    assert(ivs@.take(n as int) =~= ivs@);
    match open {
        Some(w) => {
            if w.start == w.end {
                let ghost all = views(out@).push(w@);
                assert(all[out@.len() as int].start == all[out@.len() as int].end);
                assert(!has_overflow(all)) by {
                    assert forall|k: int| 0 <= k < all.len() implies (#[trigger] all[k]).weighted
                        <= u128::MAX by {
                        if k < out@.len() {
                            assert(all[k] == out@[k]@);
                        }
                    }
                }
                return Err(AggregateError::InvalidWindow);
            }
            out.push(w);
        },
        None => {},
    }
    proof {
        let all = windows(ivs@, ws);
        assert(all =~= views(out@));
        assert(!has_overflow(all)) by {
            assert forall|k: int| 0 <= k < all.len() implies (#[trigger] all[k]).weighted
                <= u128::MAX by {
                assert(all[k] == out@[k]@);
            }
        }
        assert(!has_empty_span(all)) by {
            assert forall|k: int| 0 <= k < all.len() implies (#[trigger] all[k]).start
                != all[k].end by {
                assert(all[k] == out@[k]@);
            }
        }
    }
    Ok(out)
}

/// If the window open after folding in interval `i` weighs more than 128 bits
/// hold, then some window of the whole scan does too.
proof fn lemma_overflow_reaches_end(ivs: Seq<Interval>, ws: int, i: int)
    requires
        intervals_valid(ivs),
        0 <= i < ivs.len(),
        extend(fold(ivs.take(i), ws).open, ivs[i]).weighted > u128::MAX,
    ensures
        has_overflow(windows(ivs, ws)),
{
    let w = extend(fold(ivs.take(i), ws).open, ivs[i]);
    let t = ivs.take(i + 1);
    assert(t.drop_last() =~= ivs.take(i));
    assert(t.last() == ivs[i]);
    lemma_fold_grows(ivs, ws, i + 1, ivs.len() as int);
    assert(ivs.take(ivs.len() as int) =~= ivs);
    let f1 = fold(t, ws);
    let fe = fold(ivs, ws);
    let all = windows(ivs, ws);
    if f1.open is None {
        let k = f1.closed.len() - 1;
        assert(fe.closed.subrange(0, f1.closed.len() as int)[k] == fe.closed[k]);
        assert(all[k] == fe.closed[k]);
        assert(all[k].weighted > u128::MAX);
    } else {
        let k = f1.closed.len() as int;
        if fe.closed.len() > f1.closed.len() {
            assert(all[k] == fe.closed[k]);
        } else {
            assert(all[k] == fe.open->0);
        }
        assert(all[k].weighted > u128::MAX);
    }
}

} // verus!
