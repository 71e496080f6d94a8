use vstd::prelude::*;

use crate::error::Error;

verus! {

/// Bucket of a fee rate: ranges of width `max / count`, the last one open above.
pub open spec fn bucket_of(count: nat, max: nat, rate: nat) -> nat {
    if rate >= max {
        (count - 1) as nat
    } else {
        rate * count / max
    }
}

/// How many of `rates` fall in bucket `i`.
pub open spec fn occurrences(count: nat, max: nat, rates: Seq<u64>, i: nat) -> nat
    decreases rates.len(),
{
    if rates.len() == 0 {
        0
    } else {
        occurrences(count, max, rates.drop_last(), i) + if bucket_of(
            count,
            max,
            rates.last() as nat,
        ) == i {
            1nat
        } else {
            0nat
        }
    }
}

proof fn lemma_occurrences_bounded(count: nat, max: nat, rates: Seq<u64>, i: nat)
    ensures
        occurrences(count, max, rates, i) <= rates.len(),
    decreases rates.len(),
{
    if rates.len() > 0 {
        lemma_occurrences_bounded(count, max, rates.drop_last(), i);
    }
}

/// Configuration of a fee histogram: how many buckets, and where the last one starts.
#[derive(Clone, Copy, Debug)]
pub struct FeeBuckets {
    pub bucket_count: usize,
    pub max_value: u64,
}

impl FeeBuckets {
    pub open spec fn wf(&self) -> bool {
        self.bucket_count > 0 && self.max_value > 0
    }

    pub open spec fn spec_bucket(&self, rate: u64) -> nat {
        bucket_of(self.bucket_count as nat, self.max_value as nat, rate as nat)
    }

    pub open spec fn spec_count(&self, rates: Seq<u64>, i: nat) -> nat {
        occurrences(self.bucket_count as nat, self.max_value as nat, rates, i)
    }

    /// A configuration, refused when either number is zero.
    pub fn new(bucket_count: usize, max_value: u64) -> (r: Result<FeeBuckets, Error>)
        ensures
            match r {
                Ok(b) => b.wf() && b.bucket_count == bucket_count && b.max_value == max_value,
                Err(e) => e == Error::InvalidConfig && (bucket_count == 0 || max_value == 0),
            },
            r is Ok <==> (bucket_count > 0 && max_value > 0),
    {
        if bucket_count == 0 || max_value == 0 {
            Err(Error::InvalidConfig)
        } else {
            Ok(FeeBuckets { bucket_count, max_value })
        }
    }

    /// Index of the bucket that `rate` falls in.
    pub fn bucket_index(&self, rate: u64) -> (r: usize)
        requires
            self.wf(),
        ensures
            r as nat == self.spec_bucket(rate),
            r < self.bucket_count,
    {
        if rate >= self.max_value {
            self.bucket_count - 1
        } else {
            let count = self.bucket_count as u128;
            let max = self.max_value as u128;
            proof {
                let (a, c, m) = (rate as int, count as int, max as int);
                assert(0 <= a * c && a * c < m * c) by (nonlinear_arith)
                    requires
                        0 <= a < m,
                        c > 0,
                ;
                assert((a * c) / m < c) by (nonlinear_arith)
                    requires
                        0 <= a * c < m * c,
                        m > 0,
                ;
                assert(a * c <= u64::MAX * u64::MAX) by (nonlinear_arith)
                    requires
                        0 <= a <= u64::MAX,
                        0 <= c <= u64::MAX,
                ;
            }
            let product = (rate as u128) * count;
            (product / max) as usize
        }
    }

    /// Histogram of `rates`: for each bucket, how many rates fall in it.
    pub fn get(&self, rates: &[u64]) -> (r: Vec<u64>)
        requires
            self.wf(),
        ensures
            r@.len() == self.bucket_count,
            forall|i: int|
                0 <= i < self.bucket_count ==> r@[i] as nat == self.spec_count(rates@, i as nat),
    {
        let mut hist: Vec<u64> = Vec::new();
        let mut i: usize = 0;
        while i < self.bucket_count
            invariant
                i <= self.bucket_count,
                hist@.len() == i,
                forall|j: int| 0 <= j < i ==> hist@[j] == 0,
            decreases self.bucket_count - i,
        {
            hist.push(0);
            i = i + 1;
        }
        let mut k: usize = 0;
        while k < rates.len()
            invariant
                self.wf(),
                k <= rates@.len(),
                hist@.len() == self.bucket_count,
                forall|j: int|
                    0 <= j < self.bucket_count ==> hist@[j] as nat == self.spec_count(
                        rates@.subrange(0, k as int),
                        j as nat,
                    ),
            decreases rates@.len() - k,
        {
            let b = self.bucket_index(rates[k]);
            proof {
                let prefix = rates@.subrange(0, k as int + 1);
                assert(prefix.drop_last() == rates@.subrange(0, k as int));
                assert(prefix.last() == rates@[k as int]);
                lemma_occurrences_bounded(
                    self.bucket_count as nat,
                    self.max_value as nat,
                    rates@.subrange(0, k as int),
                    b as nat,
                );
            }
            let c = hist[b];
            hist.set(b, c + 1);
            k = k + 1;
        }
        assert(rates@.subrange(0, rates@.len() as int) == rates@);
        hist
    }
}

/// A rate that lies exactly on the lower edge of bucket `i` falls in bucket `i`,
/// and every rate at or above the maximum falls in the last bucket.
pub proof fn lemma_bucket_edges(b: FeeBuckets, i: nat, rate: u64)
    requires
        b.wf(),
        i < b.bucket_count,
        (i * b.max_value) % (b.bucket_count as int) == 0,
    ensures
        bucket_of(
            b.bucket_count as nat,
            b.max_value as nat,
            ((i * b.max_value) / (b.bucket_count as int)) as nat,
        ) == i,
        rate >= b.max_value ==> b.spec_bucket(rate) == b.bucket_count - 1,
{
    let c = b.bucket_count as int;
    let m = b.max_value as int;
    let e = (i * m) / c;
    assert(e * c == i * m) by (nonlinear_arith)
        requires
            (i * m) % c == 0,
            e == (i * m) / c,
            c > 0,
    ;
    assert(e < m) by (nonlinear_arith)
        requires
            e * c == i * m,
            0 <= i < c,
            m > 0,
    ;
    assert(e >= 0) by (nonlinear_arith)
        requires
            e == (i * m) / c,
            i >= 0,
            m > 0,
            c > 0,
    ;
    assert((e * c) / m == i) by (nonlinear_arith)
        requires
            e * c == i * m,
            m > 0,
    ;
}

/// The histogram of no observations is zero in every bucket.
pub proof fn lemma_empty_histogram(b: FeeBuckets, i: nat)
    ensures
        b.spec_count(Seq::<u64>::empty(), i) == 0,
{
}

} // verus!
