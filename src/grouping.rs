use vstd::prelude::*;

use crate::aggregate::{report, Chromosome};
use crate::window::windows;

verus! {

/// Each chromosome of a report holds exactly the windows of the input
/// chromosome of the same name, and every input chromosome with intervals has
/// its entry.
pub proof fn lemma_report_grouping(data: Seq<Chromosome>, ws: int)
    requires
        report(data, ws) is Ok,
    ensures
        forall|j: int|
            0 <= j < report(data, ws)->Ok_0.len() ==> exists|i: int|
                0 <= i < data.len() && (#[trigger] data[i]).intervals@.len() > 0
                    && #[trigger] report(data, ws)->Ok_0[j] == (data[i].name@, windows(
                    data[i].intervals@,
                    ws,
                )),
        forall|i: int|
            0 <= i < data.len() && (#[trigger] data[i]).intervals@.len() > 0 ==> exists|j: int|
                0 <= j < report(data, ws)->Ok_0.len() && #[trigger] report(data, ws)->Ok_0[j] == (
                    data[i].name@,
                    windows(data[i].intervals@, ws),
                ),
    decreases data.len(),
{
    if data.len() > 0 {
        let p = data.drop_last();
        lemma_report_grouping(p, ws);
        let rp = report(p, ws)->Ok_0;
        let r = report(data, ws)->Ok_0;
        let c = data.last();
        let n = data.len() - 1;
        assert(c == data[n]);
        assert forall|j: int| 0 <= j < r.len() implies exists|i: int|
            0 <= i < data.len() && (#[trigger] data[i]).intervals@.len() > 0 && #[trigger] r[j] == (
                data[i].name@,
                windows(data[i].intervals@, ws),
            ) by {
            if j < rp.len() {
                assert(r[j] == rp[j]);
                let i = choose|i: int|
                    0 <= i < p.len() && (#[trigger] p[i]).intervals@.len() > 0 && #[trigger] rp[j] == (
                        p[i].name@,
                        windows(p[i].intervals@, ws),
                    );
                assert(data[i] == p[i]);
            } else {
                assert(data[n].intervals@.len() > 0);
            }
        }
        assert forall|i: int| 0 <= i < data.len() && (#[trigger] data[i]).intervals@.len()
            > 0 implies exists|j: int|
            0 <= j < r.len() && #[trigger] r[j] == (data[i].name@, windows(data[i].intervals@, ws)) by {
            if i < n {
                assert(data[i] == p[i]);
                assert(p[i].intervals@.len() > 0);
                let j = choose|j: int|
                    0 <= j < rp.len() && #[trigger] rp[j] == (p[i].name@, windows(p[i].intervals@, ws));
                assert(r[j] == rp[j]);
            } else {
                assert(r[rp.len() as int] == (data[i].name@, windows(data[i].intervals@, ws)));
            }
        }
    }
}

} // verus!
