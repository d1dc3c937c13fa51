use vstd::prelude::*;

use crate::interval::Interval;
use crate::window::{
    intervals_valid, views, window_intervals, windows_result, AggregateError, Window,
    WindowModel,
};

verus! {

/// One chromosome's intervals, in input order.
#[derive(Clone, Debug)]
pub struct Chromosome {
    pub name: String,
    pub intervals: Vec<Interval>,
}

/// One chromosome's windows, in order.
#[derive(Clone, Debug)]
pub struct ChromosomeWindows {
    pub name: String,
    pub windows: Vec<Window>,
}

pub open spec fn report_view(s: Seq<ChromosomeWindows>) -> Seq<(Seq<char>, Seq<WindowModel>)> {
    s.map_values(|c: ChromosomeWindows| (c.name@, views(c.windows@)))
}

/// Every chromosome's intervals end at or after their starts.
pub open spec fn table_valid(data: Seq<Chromosome>) -> bool {
    forall|i: int| 0 <= i < data.len() ==> intervals_valid((#[trigger] data[i]).intervals@)
}

/// The report for `data`: chromosomes in input order, those without intervals
/// left out, each with its windows; or the error of the first chromosome that
/// has one.
pub open spec fn report(data: Seq<Chromosome>, ws: int) -> Result<
    Seq<(Seq<char>, Seq<WindowModel>)>,
    AggregateError,
>
    decreases data.len(),
{
    if data.len() == 0 {
        Ok(seq![])
    } else {
        match report(data.drop_last(), ws) {
            Err(e) => Err(e),
            Ok(prev) => {
                let c = data.last();
                if c.intervals@.len() == 0 {
                    Ok(prev)
                } else {
                    match windows_result(c.intervals@, ws) {
                        Err(e) => Err(e),
                        Ok(w) => Ok(prev.push((c.name@, w))),
                    }
                }
            },
        }
    }
}

/// Tells whether every interval of `data` ends at or after its start.
pub fn table_is_valid(data: &Vec<Chromosome>) -> (r: bool)
    ensures
        r == table_valid(data@),
{
    let mut i: usize = 0;
    while i < data.len()
        invariant
            0 <= i <= data@.len(),
            forall|a: int| 0 <= a < i ==> intervals_valid((#[trigger] data@[a]).intervals@),
        decreases data@.len() - i,
    {
        let ivs = &data[i].intervals;
        let mut j: usize = 0;
        while j < ivs.len()
            invariant
                0 <= j <= ivs@.len(),
                i < data@.len(),
                ivs@ == data@[i as int].intervals@,
                forall|b: int| 0 <= b < j ==> (#[trigger] ivs@[b]).start <= ivs@[b].end,
            decreases ivs@.len() - j,
        {
            if ivs[j].start > ivs[j].end {
                assert(!intervals_valid(data@[i as int].intervals@)) by {
                    assert(ivs@[j as int].start > ivs@[j as int].end);
                }
                return false;
            }
            j = j + 1;
        }
        i = i + 1;
    }
    true
}

/// Averages recombination rate over windows of at least `window_size` bases,
/// chromosome by chromosome.
pub fn compute_average(data: &Vec<Chromosome>, window_size: usize) -> (r: Result<
    Vec<ChromosomeWindows>,
    AggregateError,
>)
    requires
        window_size > 0,
        table_valid(data@),
    ensures
        match r {
            Ok(out) => report(data@, window_size as int) == Ok::<
                Seq<(Seq<char>, Seq<WindowModel>)>,
                AggregateError,
            >(report_view(out@)),
            Err(e) => report(data@, window_size as int) == Err::<
                Seq<(Seq<char>, Seq<WindowModel>)>,
                AggregateError,
            >(e),
        },
{
    let ghost ws = window_size as int;
    let mut out: Vec<ChromosomeWindows> = Vec::new();
    let mut i: usize = 0;
    assert(data@.take(0) =~= Seq::<Chromosome>::empty());
    assert(report_view(out@) =~= Seq::<(Seq<char>, Seq<WindowModel>)>::empty());
    while i < data.len()
        invariant
            0 <= i <= data@.len(),
            ws == window_size as int,
            window_size > 0,
            table_valid(data@),
            report(data@.take(i as int), ws) == Ok::<
                Seq<(Seq<char>, Seq<WindowModel>)>,
                AggregateError,
            >(report_view(out@)),
        decreases data@.len() - i,
    {
        let c = &data[i];
        let ghost t = data@.take(i + 1);
        assert(t.drop_last() =~= data@.take(i as int));
        assert(t.last() == data@[i as int]);
        assert(intervals_valid(c.intervals@));
        if c.intervals.len() > 0 {
            match window_intervals(&c.intervals, window_size) {
                Err(e) => {
                    proof {
                        lemma_error_sticks(data@, ws, i as int + 1);
                    }
                    return Err(e);
                },
                Ok(w) => {
                    out.push(ChromosomeWindows { name: c.name.clone(), windows: w });
                    assert(report_view(out@) =~= report(t, ws)->Ok_0);
                },
            }
        }
        i = i + 1;
    }
    assert(data@.take(data@.len() as int) =~= data@);
    Ok(out)
}

/// Once a prefix of the table fails, the whole table fails the same way.
proof fn lemma_error_sticks(data: Seq<Chromosome>, ws: int, i: int)
    requires
        0 <= i <= data.len(),
        report(data.take(i), ws) is Err,
    ensures
        report(data, ws) == report(data.take(i), ws),
    decreases data.len() - i,
{
    if i < data.len() {
        let t = data.take(i + 1);
        assert(t.drop_last() =~= data.take(i));
        lemma_error_sticks(data, ws, i + 1);
    } else {
        assert(data.take(i) =~= data);
    }
}

} // verus!
