//! The running aggregation of a scan: a grand total of lines and a
//! per-language bucket mapping.
//!
//! Buckets are kept as an association list in first-insertion order with
//! pairwise-distinct keys; the well-formedness invariant ties the grand
//! total to the sum of the bucket counts, so no line is counted twice
//! and none is lost.

use vstd::prelude::*;

verus! {

/// Pairwise-distinct bucket keys.
pub open spec fn bucket_keys_distinct(b: Seq<(Seq<char>, int)>) -> bool {
    forall|i: int, j: int| 0 <= i < j < b.len() ==> b[i].0 != b[j].0
}

/// Sum of all bucket counts.
pub open spec fn bucket_sum(b: Seq<(Seq<char>, int)>) -> int
    decreases b.len(),
{
    if b.len() == 0 {
        0
    } else {
        bucket_sum(b.drop_last()) + b.last().1
    }
}

/// Count held under key `k`: the first pair with that key, if any.
pub open spec fn spec_lookup(b: Seq<(Seq<char>, int)>, k: Seq<char>) -> Option<int>
    decreases b.len(),
{
    if b.len() == 0 {
        None
    } else if b[0].0 == k {
        Some(b[0].1)
    } else {
        spec_lookup(b.drop_first(), k)
    }
}

/// Adds `n` under key `k`: the first pair with that key grows by `n`,
/// or a new pair `(k, n)` is appended when no pair has it.
pub open spec fn spec_record(b: Seq<(Seq<char>, int)>, k: Seq<char>, n: int) -> Seq<
    (Seq<char>, int),
>
    decreases b.len(),
{
    if b.len() == 0 {
        seq![(k, n)]
    } else if b[0].0 == k {
        seq![(b[0].0, b[0].1 + n)] + b.drop_first()
    } else {
        seq![b[0]] + spec_record(b.drop_first(), k, n)
    }
}

/// With no match among the first `i` keys, recording skips that prefix.
proof fn lemma_record_skip(b: Seq<(Seq<char>, int)>, k: Seq<char>, n: int, i: int)
    requires
        0 <= i <= b.len(),
        forall|t: int| 0 <= t < i ==> b[t].0 != k,
    ensures
        spec_record(b, k, n) == b.take(i) + spec_record(b.skip(i), k, n),
    decreases i,
{
    if i == 0 {
        assert(b.skip(0) =~= b);
        assert(b.take(0) + spec_record(b, k, n) =~= spec_record(b, k, n));
    } else {
        lemma_record_skip(b.drop_first(), k, n, i - 1);
        assert(b.drop_first().take(i - 1) =~= b.take(i).drop_first());
        assert(b.drop_first().skip(i - 1) =~= b.skip(i));
        assert(seq![b[0]] + (b.take(i).drop_first() + spec_record(b.skip(i), k, n)) =~= b.take(i)
            + spec_record(b.skip(i), k, n));
    }
}

/// Each count is bounded by the sum when all counts are nonnegative.
proof fn lemma_bucket_le_sum(b: Seq<(Seq<char>, int)>, i: int)
    requires
        forall|t: int| 0 <= t < b.len() ==> b[t].1 >= 0,
        0 <= i < b.len(),
    ensures
        b[i].1 <= bucket_sum(b),
        bucket_sum(b) >= 0,
    decreases b.len(),
{
    lemma_bucket_sum_nonneg(b.drop_last());
    if i < b.len() - 1 {
        lemma_bucket_le_sum(b.drop_last(), i);
    }
}

proof fn lemma_bucket_sum_nonneg(b: Seq<(Seq<char>, int)>)
    requires
        forall|t: int| 0 <= t < b.len() ==> b[t].1 >= 0,
    ensures
        bucket_sum(b) >= 0,
    decreases b.len(),
{
    if b.len() > 0 {
        lemma_bucket_sum_nonneg(b.drop_last());
    }
}

/// Growing one bucket by `n` grows the sum by `n`.
proof fn lemma_bucket_sum_update(b: Seq<(Seq<char>, int)>, i: int, p: (Seq<char>, int), n: int)
    requires
        0 <= i < b.len(),
        p.1 == b[i].1 + n,
    ensures
        bucket_sum(b.update(i, p)) == bucket_sum(b) + n,
    decreases b.len(),
{
    if i == b.len() - 1 {
        assert(b.update(i, p).drop_last() =~= b.drop_last());
    } else {
        assert(b.update(i, p).drop_last() =~= b.drop_last().update(i, p));
        lemma_bucket_sum_update(b.drop_last(), i, p, n);
    }
}

/// Appending a bucket adds its count to the sum.
proof fn lemma_bucket_sum_push(b: Seq<(Seq<char>, int)>, p: (Seq<char>, int))
    ensures
        bucket_sum(b.push(p)) == bucket_sum(b) + p.1,
{
    assert(b.push(p).drop_last() =~= b);
}

/// With no match among the first `i` keys, lookup skips that prefix.
proof fn lemma_lookup_skip(b: Seq<(Seq<char>, int)>, k: Seq<char>, i: int)
    requires
        0 <= i <= b.len(),
        forall|t: int| 0 <= t < i ==> b[t].0 != k,
    ensures
        spec_lookup(b, k) == spec_lookup(b.skip(i), k),
    decreases i,
{
    if i > 0 {
        assert(b.skip(0) =~= b);
        lemma_lookup_skip(b.drop_first(), k, i - 1);
        assert(b.drop_first().skip(i - 1) =~= b.skip(i));
    } else {
        assert(b.skip(0) =~= b);
    }
}

/// The running counts of one scan: the grand total of lines and the
/// per-language buckets, created empty and grown additively as files
/// are processed.
pub struct AggregationState {
    pub total_lines: u64,
    pub buckets: Vec<(String, u64)>,
}

impl AggregationState {
    /// The buckets as a sequence of key characters and counts, in
    /// first-insertion order.
    pub open spec fn buckets_model(self) -> Seq<(Seq<char>, int)> {
        self.buckets@.map_values(|p: (String, u64)| (p.0@, p.1 as int))
    }

    /// Well-formedness: bucket keys are pairwise distinct and the
    /// counts sum exactly to the grand total.
    pub open spec fn wf(self) -> bool {
        &&& bucket_keys_distinct(self.buckets_model())
        &&& bucket_sum(self.buckets_model()) == self.total_lines
    }

    /// The empty aggregation a scan starts from.
    pub fn new() -> (r: AggregationState)
        ensures
            r.wf(),
            r.total_lines == 0,
            r.buckets_model() == Seq::<(Seq<char>, int)>::empty(),
    {
        let r = AggregationState { total_lines: 0, buckets: Vec::new() };
        proof {
            assert(r.buckets_model() =~= Seq::<(Seq<char>, int)>::empty());
        }
        r
    }

    /// Adds `n` lines to the grand total and to the bucket named
    /// `name`, creating that bucket when it is absent.
    #[verifier::loop_isolation(false)]
    pub fn record(&mut self, name: String, n: u64)
        requires
            old(self).wf(),
            old(self).total_lines + n <= u64::MAX,
        ensures
            final(self).wf(),
            final(self).total_lines == old(self).total_lines + n,
            final(self).buckets_model() == spec_record(old(self).buckets_model(), name@, n as int),
    {
        let ghost b = self.buckets_model();
        let mut i: usize = 0;
        while i < self.buckets.len()
            invariant
                *self == *old(self),
                i <= self.buckets@.len(),
                forall|t: int| 0 <= t < i ==> b[t].0 != name@,
            decreases self.buckets@.len() - i,
        {
            if self.buckets[i].0 == name {
                proof {
                    assert(b[i as int].0 == name@);
                    lemma_record_skip(b, name@, n as int, i as int);
                    assert(forall|t: int| 0 <= t < b.len() ==> #[trigger] b[t].1 >= 0);
                    lemma_bucket_le_sum(b, i as int);
                }
                let c: u64 = self.buckets[i].1;
                self.buckets[i] = (name, c + n);
                proof {
                    let nb = self.buckets_model();
                    assert(nb =~= b.update(i as int, (b[i as int].0, b[i as int].1 + n)));
                    assert(b.skip(i as int)[0] == b[i as int]);
                    assert(spec_record(b.skip(i as int), name@, n as int) =~= seq![
                        (b[i as int].0, b[i as int].1 + n),
                    ] + b.skip(i as int).drop_first());
                    assert(nb =~= b.take(i as int) + spec_record(b.skip(i as int), name@, n as int));
                    lemma_bucket_sum_update(
                        b,
                        i as int,
                        (b[i as int].0, b[i as int].1 + n),
                        n as int,
                    );
                }
                self.total_lines = self.total_lines + n;
                return ;
            }
            i = i + 1;
        }
        proof {
            lemma_record_skip(b, name@, n as int, b.len() as int);
            assert(b.skip(b.len() as int) =~= Seq::<(Seq<char>, int)>::empty());
            assert(b.take(b.len() as int) =~= b);
        }
        self.buckets.push((name, n));
        proof {
            let nb = self.buckets_model();
            assert(nb =~= b.push((name@, n as int)));
            assert(nb =~= b + seq![(name@, n as int)]);
            lemma_bucket_sum_push(b, (name@, n as int));
        }
        self.total_lines = self.total_lines + n;
    }

    /// The count held for the bucket named `name`, if that bucket
    /// exists.
    pub fn get(&self, name: &String) -> (r: Option<u64>)
        ensures
            match r {
                Some(c) => spec_lookup(self.buckets_model(), name@) == Some(c as int),
                None => spec_lookup(self.buckets_model(), name@) is None,
            },
    {
        let ghost b = self.buckets_model();
        let mut i: usize = 0;
        while i < self.buckets.len()
            invariant
                b == self.buckets_model(),
                i <= self.buckets@.len(),
                forall|t: int| 0 <= t < i ==> b[t].0 != name@,
            decreases self.buckets@.len() - i,
        {
            if self.buckets[i].0 == *name {
                let c: u64 = self.buckets[i].1;
                proof {
                    lemma_lookup_skip(b, name@, i as int);
                    assert(b.skip(i as int)[0] == b[i as int]);
                }
                return Some(c);
            }
            i = i + 1;
        }
        proof {
            lemma_lookup_skip(b, name@, b.len() as int);
            assert(b.skip(b.len() as int) =~= Seq::<(Seq<char>, int)>::empty());
        }
        None
    }
}

/// Recording under `k` feeds exactly one bucket: the count under `k`
/// grows by `n`, starting from zero when the bucket is absent, and the
/// count under every other key is kept as it was.
pub proof fn lemma_record_changes_one_bucket(b: Seq<(Seq<char>, int)>, k: Seq<char>, n: int)
    ensures
        spec_lookup(spec_record(b, k, n), k) == match spec_lookup(b, k) {
            None => Some(n),
            Some(c) => Some(c + n),
        },
        forall|k2: Seq<char>|
            k2 != k ==> #[trigger] spec_lookup(spec_record(b, k, n), k2) == spec_lookup(b, k2),
    decreases b.len(),
{
    let r = spec_record(b, k, n);
    if b.len() == 0 {
        assert(r == seq![(k, n)]);
        assert(r.drop_first() =~= Seq::<(Seq<char>, int)>::empty());
        assert forall|k2: Seq<char>| k2 != k implies #[trigger] spec_lookup(r, k2)
            == spec_lookup(b, k2) by {
            assert(r[0].0 == k);
            assert(spec_lookup(r, k2) == spec_lookup(r.drop_first(), k2));
            assert(spec_lookup(r.drop_first(), k2) is None);
            assert(spec_lookup(b, k2) is None);
        }
    } else if b[0].0 == k {
        assert(r == seq![(b[0].0, b[0].1 + n)] + b.drop_first());
        assert(r[0] == (b[0].0, b[0].1 + n));
        assert(r.drop_first() =~= b.drop_first());
        assert forall|k2: Seq<char>| k2 != k implies #[trigger] spec_lookup(r, k2)
            == spec_lookup(b, k2) by {
            assert(r[0].0 == b[0].0);
        }
    } else {
        lemma_record_changes_one_bucket(b.drop_first(), k, n);
        assert(r == seq![b[0]] + spec_record(b.drop_first(), k, n));
        assert(r[0] == b[0]);
        assert(r.drop_first() =~= spec_record(b.drop_first(), k, n));
        assert forall|k2: Seq<char>| k2 != k implies #[trigger] spec_lookup(r, k2)
            == spec_lookup(b, k2) by {
            if k2 != b[0].0 {
                assert(spec_lookup(r, k2) == spec_lookup(r.drop_first(), k2));
                assert(spec_lookup(b, k2) == spec_lookup(b.drop_first(), k2));
            }
        }
    }
}

/// Every bucket's count is at most the grand total, and the counts sum
/// exactly to it.
pub proof fn lemma_buckets_bounded_by_total(st: AggregationState)
    requires
        st.wf(),
    ensures
        bucket_sum(st.buckets_model()) == st.total_lines,
        forall|i: int|
            0 <= i < st.buckets_model().len() ==> 0 <= #[trigger] st.buckets_model()[i].1
                <= st.total_lines,
{
    assert(forall|t: int|
        0 <= t < st.buckets_model().len() ==> #[trigger] st.buckets_model()[t].1 >= 0);
    assert forall|i: int| 0 <= i < st.buckets_model().len() implies 0
        <= #[trigger] st.buckets_model()[i].1 <= st.total_lines by {
        lemma_bucket_le_sum(st.buckets_model(), i);
    }
}

} // verus!
