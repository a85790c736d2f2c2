//! The report's computable part: the final buckets ordered by line
//! count, largest first.
//!
//! The order among buckets with equal counts is left open, as the
//! report only promises a descending ordering; the result holds exactly
//! the buckets of the aggregation, nothing added and nothing dropped.

use vstd::prelude::*;
use vstd::seq_lib::group_to_multiset_ensures;

use crate::aggregate::AggregationState;

verus! {

broadcast use group_to_multiset_ensures;

/// The same view pairs an `AggregationState` uses for its buckets.
pub open spec fn report_model(r: Seq<(String, u64)>) -> Seq<(Seq<char>, int)> {
    r.map_values(|p: (String, u64)| (p.0@, p.1 as int))
}

/// Counts never increase along the sequence.
pub open spec fn sorted_desc(r: Seq<(Seq<char>, int)>) -> bool {
    forall|i: int, j: int| 0 <= i < j < r.len() ==> r[i].1 >= r[j].1
}

/// Orders the final buckets by line count, largest first: the result
/// holds exactly the aggregation's buckets, descending by count.
#[verifier::loop_isolation(false)]
pub fn into_sorted_report(st: AggregationState) -> (r: Vec<(String, u64)>)
    ensures
        report_model(r@).to_multiset() == st.buckets_model().to_multiset(),
        sorted_desc(report_model(r@)),
        r@.len() == st.buckets_model().len(),
{
    let ghost b0 = st.buckets_model();
    let mut work = st.buckets;
    proof {
        assert(report_model(work@) =~= b0);
    }
    let mut out: Vec<(String, u64)> = Vec::new();
    while work.len() > 0
        invariant
            out@.len() + work@.len() == b0.len(),
            report_model(out@).to_multiset().add(report_model(work@).to_multiset())
                == b0.to_multiset(),
            sorted_desc(report_model(out@)),
            forall|a: int, b: int|
                0 <= a < out@.len() && 0 <= b < work@.len() ==> report_model(out@)[a].1
                    >= report_model(work@)[b].1,
        decreases work@.len(),
    {
        let mut m: usize = 0;
        let mut j: usize = 1;
        while j < work.len()
            invariant
                work@.len() > 0,
                m < j,
                j <= work@.len(),
                forall|t: int| 0 <= t < j ==> work@[t].1 <= work@[m as int].1,
            decreases work@.len() - j,
        {
            if work[j].1 > work[m].1 {
                m = j;
            }
            j = j + 1;
        }
        let ghost wb = report_model(work@);
        let ghost ob = report_model(out@);
        let p = work.remove(m);
        out.push(p);
        proof {
            assert(report_model(work@) =~= wb.remove(m as int));
            assert(report_model(out@) =~= ob.push((p.0@, p.1 as int)));
            assert((p.0@, p.1 as int) == wb[m as int]);
            assert(wb.remove(m as int).to_multiset() == wb.to_multiset().remove(wb[m as int]));
            assert(report_model(out@).to_multiset() == ob.to_multiset().insert(wb[m as int]));
            assert(wb.to_multiset().contains(wb[m as int]));
            assert(ob.to_multiset().insert(wb[m as int]).add(
                wb.to_multiset().remove(wb[m as int]),
            ) =~= ob.to_multiset().add(wb.to_multiset()));
            assert(forall|b: int|
                0 <= b < report_model(work@).len() ==> #[trigger] report_model(work@)[b].1
                    <= wb[m as int].1);
        }
    }
    out
}

} // verus!
