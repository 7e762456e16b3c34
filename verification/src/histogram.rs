//! An empirical histogram: timestamps binned to multiples of a bin size,
//! with a weighted sampler over the bin counts.

use vstd::prelude::*;
use vstd::seq_lib::group_to_multiset_ensures;

use crate::mixerror::MixError;
use crate::weighted::{count_sampler_weights, sum_usize, CountSampler};

verus! {

broadcast use group_to_multiset_ensures;

/// Non-decreasing order, as the binning pass expects its data.
pub open spec fn sorted(s: Seq<usize>) -> bool {
    forall|i: int, j: int| 0 <= i < j < s.len() ==> s[i] <= s[j]
}

/// Whether `t` is counted into the bin at `bin`: it lies no further from
/// `bin` than from `bin + bin_size`, measuring from the first datum.
pub open spec fn close_cond(t: int, first: int, bin: int, bin_size: int) -> bool {
    2 * (t - first) <= 2 * bin + bin_size
}

/// The bin opened for a datum `t`: whichever multiple of `bin_size`
/// adjacent to `t` is nearer.
pub open spec fn next_bin(t: int, bin_size: int) -> int {
    let prev = t - (t % bin_size);
    if 2 * (t - prev) <= bin_size {
        prev
    } else {
        prev + bin_size
    }
}

/// The bin the pass opens with: the nearest multiple of the bin size to
/// the first (smallest) datum.
pub open spec fn first_bin(data: Seq<usize>, bin_size: int) -> int {
    next_bin(data[0] as int, bin_size)
}

/// One pass of the binning loop over the first `upto` data: the open bin,
/// its running count, and the `(bin, count)` pairs emitted so far.  A pair
/// is emitted when a datum opens a new bin, and for the last datum when it
/// falls into the open bin; a final bin opened by the last datum itself is
/// not emitted.  The pass opens at the nearest multiple of the bin size to
/// the smallest datum, so every retained bin is near one of the data.
pub open spec fn bin_fold(data: Seq<usize>, bin_size: int, upto: int) -> (int, int, Seq<
    (int, int),
>)
    decreases upto,
{
    if data.len() == 0 {
        (0, 0, Seq::<(int, int)>::empty())
    } else if upto <= 0 {
        (first_bin(data, bin_size), 0, Seq::<(int, int)>::empty())
    } else {
        let s = bin_fold(data, bin_size, upto - 1);
        let bin = s.0;
        let count = s.1;
        let pairs = s.2;
        let t = data[upto - 1] as int;
        let first = data[0] as int;
        if close_cond(t, first, bin, bin_size) {
            if upto == data.len() {
                (bin, count + 1, pairs.push((bin, count + 1)))
            } else {
                (bin, count + 1, pairs)
            }
        } else {
            (next_bin(t, bin_size), 1, pairs.push((bin, count)))
        }
    }
}

/// The bins a data set is reduced to.
pub open spec fn spec_bins(data: Seq<usize>, bin_size: int) -> Seq<(int, int)> {
    bin_fold(data, bin_size, data.len() as int).2
}

/// A histogram: the retained bin values, their counts, the span of the
/// data, how many draws one period takes, and a weighted sampler over the
/// counts.
pub struct Histogram {
    pub period: u64,
    pub nbr_sampling: u32,
    timestamps: Vec<usize>,
    weights: Vec<usize>,
    wi: CountSampler,
    /// the sorted data the bins were built from
    source: Ghost<Seq<usize>>,
    /// the bin size the bins are multiples of
    bsize: Ghost<usize>,
}

impl Histogram {
    /// The retained bin values.
    pub closed spec fn spec_timestamps(&self) -> Seq<usize> {
        self.timestamps@
    }

    /// The count of each retained bin.
    pub closed spec fn spec_weights(&self) -> Seq<usize> {
        self.weights@
    }

    pub closed spec fn spec_period(&self) -> u64 {
        self.period
    }

    pub closed spec fn spec_nbr_sampling(&self) -> u32 {
        self.nbr_sampling
    }

    /// The sorted data this histogram was built from.
    pub closed spec fn spec_source(&self) -> Seq<usize> {
        self.source@
    }

    /// The bin size this histogram was built with.
    pub closed spec fn spec_bin_size(&self) -> usize {
        self.bsize@
    }

    /// As many bin values as counts, at least one of each, the sampler
    /// drawing over exactly those counts, and the bin values exactly the
    /// bins of the recorded sorted source data.
    pub closed spec fn wf(&self) -> bool {
        &&& self.timestamps@.len() == self.weights@.len()
        &&& self.timestamps@.len() > 0
        &&& count_sampler_weights(self.wi) == self.weights@
        &&& self.bsize@ > 0
        &&& sorted(self.source@)
        &&& self.source@.len() >= 1
        &&& forall|i: int|
            0 <= i < self.source@.len() ==> (#[trigger] self.source@[i]) <= usize::MAX
                - self.bsize@
        &&& self.timestamps@.len() == spec_bins(self.source@, self.bsize@ as int).len()
        &&& forall|j: int|
            0 <= j < self.timestamps@.len() ==> (#[trigger] self.timestamps@[j]) as int
                == spec_bins(self.source@, self.bsize@ as int)[j].0
    }

    /// Every retained bin lies within one period of the data's start: the
    /// premise under which the email model's emitted stream stays
    /// monotone across refills.
    pub open spec fn bins_bounded(&self) -> bool {
        forall|j: int|
            0 <= j < self.spec_timestamps().len() ==> (#[trigger] self.spec_timestamps()[j]) as int
                <= self.spec_period() + 1
    }

    /// Check the monotone-stream premise at run time.
    #[verifier::loop_isolation(false)]
    pub fn check_bins_bounded(&self) -> (b: bool)
        ensures
            b == self.bins_bounded(),
    {
        let n = self.timestamps.len();
        let mut i: usize = 0;
        while i < n
            invariant
                0 <= i <= n,
                forall|j: int|
                    0 <= j < i ==> (#[trigger] self.spec_timestamps()[j]) as int
                        <= self.spec_period() + 1,
            decreases n - i,
        {
            let t = self.timestamps[i];
            if self.period < u64::MAX && (t as u64) > self.period + 1 {
                proof {
                    assert((self.spec_timestamps()[i as int] as int) > self.spec_period() + 1);
                }
                return false;
            }
            proof {
                if self.period == u64::MAX {
                    assert((t as int) <= self.spec_period() + 1);
                }
            }
            i = i + 1;
        }
        true
    }

    /// The retained bin values.
    pub fn timestamps(&self) -> (r: &Vec<usize>)
        ensures
            r@ == self.spec_timestamps(),
    {
        &self.timestamps
    }

    /// The count of each retained bin.
    pub fn weights(&self) -> (r: &Vec<usize>)
        ensures
            r@ == self.spec_weights(),
    {
        &self.weights
    }

    /// The period, in seconds.
    pub fn get_period(&self) -> (p: u64)
        ensures
            p == self.spec_period(),
    {
        self.period
    }

    /// How many draws are made per period.
    pub fn get_nbr_sampling(&self) -> (n: u32)
        ensures
            n == self.spec_nbr_sampling(),
    {
        self.nbr_sampling
    }

    /// Draw one bin value, with probability proportional to its count.
    /// Every sample is a retained bin: a nearest multiple of the bin size
    /// to one of the source data, within one bin of the data's span.
    pub fn sample(&self, rng: &mut rand::rngs::SmallRng) -> (r: usize)
        requires
            self.wf(),
        ensures
            self.spec_timestamps().contains(r),
            (r as int) % (self.spec_bin_size() as int) == 0,
            exists|k: int|
                0 <= k < self.spec_source().len() && 2 * bin_dist(
                    r as int,
                    #[trigger] self.spec_source()[k] as int,
                ) <= self.spec_bin_size(),
            self.spec_source()[0] - self.spec_bin_size() <= r as int,
            r as int <= self.spec_source().last() + self.spec_bin_size(),
    {
        let idx = self.wi.sample(rng);
        let r = self.timestamps[idx];
        proof {
            assert(self.spec_timestamps()[idx as int] == r);
            lemma_bins_near_data(self.source@, self.bsize@ as int);
            assert((r as int) == spec_bins(self.source@, self.bsize@ as int)[idx as int].0);
            let k = choose|k: int|
                0 <= k < self.source@.len() && 2 * bin_dist(r as int, self.source@[k] as int)
                    <= self.bsize@;
            assert(0 <= k < self.spec_source().len() && 2 * bin_dist(
                r as int,
                self.spec_source()[k] as int,
            ) <= self.spec_bin_size());
        }
        r
    }

    /// Bin already-sorted data and build the sampler.  Fewer than two data
    /// are refused: the weighted sampler needs at least one positive count
    /// and the period needs a span.
    #[verifier::loop_isolation(false)]
    #[verifier::rlimit(60)]
    pub fn from_sorted_data(nbr_sampling: u32, data: &Vec<usize>, bin_size: usize) -> (r: Result<
        Histogram,
        MixError,
    >)
        requires
            sorted(data@),
            bin_size > 0,
            forall|i: int| 0 <= i < data@.len() ==> data@[i] <= usize::MAX - bin_size,
            data@.len() * data@.len() <= usize::MAX,
        ensures
            r is Ok <==> data@.len() >= 2,
            r is Ok ==> ({
                let h = r->Ok_0;
                let pairs = spec_bins(data@, bin_size as int);
                &&& h.wf()
                &&& h.spec_timestamps().len() == pairs.len()
                &&& forall|j: int|
                    0 <= j < pairs.len() ==> h.spec_timestamps()[j] == pairs[j].0
                        && h.spec_weights()[j] == pairs[j].1
                &&& h.spec_period() == data@.last() - data@[0]
                &&& h.spec_nbr_sampling() == nbr_sampling
                &&& (h.spec_timestamps()[0] as int) == first_bin(data@, bin_size as int)
                &&& h.spec_source() == data@
                &&& h.spec_bin_size() == bin_size
            }),
            r is Ok ==> ({
                let h = r->Ok_0;
                &&& h.spec_weights().len() == h.spec_timestamps().len()
                &&& h.spec_timestamps().len() > 0
                &&& (forall|j: int|
                    0 <= j < h.spec_weights().len() ==> 1 <= (#[trigger] h.spec_weights()[j]))
                &&& (forall|i: int, j: int|
                    0 <= i < j < h.spec_timestamps().len() ==> (
                    #[trigger] h.spec_timestamps()[i]) < (#[trigger] h.spec_timestamps()[j]))
                &&& (forall|j: int|
                    0 <= j < h.spec_timestamps().len() ==> ((
                    #[trigger] h.spec_timestamps()[j]) as int) % (bin_size as int) == 0)
            }),
    {
        let n = data.len();
        if n < 2 {
            return Err(MixError::new("a histogram needs at least two data points"));
        }
        let first = data[0];
        let last = data[n - 1];
        proof {
            assert(first % bin_size <= first) by (nonlinear_arith)
                requires
                    bin_size > 0,
            ;
        }
        let prev = first - first % bin_size;
        let mut bin: usize = if 2 * ((first - prev) as u128) <= bin_size as u128 {
            prev
        } else {
            prev + bin_size
        };
        proof {
            vstd::arithmetic::div_mod::lemma_fundamental_div_mod(first as int, bin_size as int);
            vstd::arithmetic::div_mod::lemma_mod_bound(first as int, bin_size as int);
            assert(bin as int == first_bin(data@, bin_size as int));
        }
        let mut count: usize = 0;
        let mut timestamps: Vec<usize> = Vec::new();
        let mut weights: Vec<usize> = Vec::new();
        let mut idx: usize = 0;
        while idx < n
            invariant
                0 <= idx <= n,
                timestamps@.len() == weights@.len(),
                bin_fold(data@, bin_size as int, idx as int) == (
                    bin as int,
                    count as int,
                    Seq::new(
                        timestamps@.len(),
                        |j: int| (timestamps@[j] as int, weights@[j] as int),
                    ),
                ),
            decreases n - idx,
        {
            proof {
                lemma_bin_fold_bounds(data@, bin_size as int, idx as int);
                lemma_bin_fold_bounds(data@, bin_size as int, idx + 1);
            }
            let ghost pairs0 = Seq::new(
                timestamps@.len(),
                |j: int| (timestamps@[j] as int, weights@[j] as int),
            );
            let t = data[idx];
            if 2 * ((t - first) as u128) <= 2 * (bin as u128) + (bin_size as u128) {
                count = count + 1;
                if idx == n - 1 {
                    timestamps.push(bin);
                    weights.push(count);
                    proof {
                        assert(Seq::new(
                            timestamps@.len(),
                            |j: int| (timestamps@[j] as int, weights@[j] as int),
                        ) =~= pairs0.push((bin as int, count as int)));
                    }
                }
            } else {
                timestamps.push(bin);
                weights.push(count);
                proof {
                    assert(Seq::new(
                        timestamps@.len(),
                        |j: int| (timestamps@[j] as int, weights@[j] as int),
                    ) =~= pairs0.push((bin as int, count as int)));
                }
                count = 1;
                proof {
                    assert(t % bin_size <= t) by (nonlinear_arith)
                        requires
                            bin_size > 0,
                    ;
                }
                let prev = t - t % bin_size;
                if 2 * ((t - prev) as u128) <= bin_size as u128 {
                    bin = prev;
                } else {
                    bin = prev + bin_size;
                }
                proof {
                    assert(bin == next_bin(t as int, bin_size as int));
                }
            }
            idx = idx + 1;
        }
        proof {
            lemma_bin_fold_bounds(data@, bin_size as int, n as int);
            lemma_last_datum_emits(data@, bin_size as int);
            assert(timestamps@.len() > 0);
        }
        let wi = match CountSampler::new(&weights) {
            Some(wi) => wi,
            None => {
                proof {
                    lemma_weights_feed_sampler(data@, bin_size as int, weights@);
                }
                return Err(MixError::new("the bin counts cannot feed the weighted sampler"));
            },
        };
        proof {
            lemma_bin_fold_shape(data@, bin_size as int, n as int);
            let pairs = spec_bins(data@, bin_size as int);
            assert forall|i: int, j: int|
                0 <= i < j < timestamps@.len() implies (#[trigger] timestamps@[i]) < (
            #[trigger] timestamps@[j]) by {
                assert(pairs[i].0 < pairs[j].0);
            }
            assert forall|j: int|
                0 <= j < timestamps@.len() implies ((#[trigger] timestamps@[j]) as int) % (
            bin_size as int) == 0 by {
                assert(pairs[j].0 % (bin_size as int) == 0);
            }
            assert forall|j: int| 0 <= j < weights@.len() implies 1 <= (
            #[trigger] weights@[j]) by {
                assert(1 <= pairs[j].1);
            }
            assert(timestamps@[0] as int == pairs[0].0);
        }
        Ok(
            Histogram {
                period: (last - first) as u64,
                nbr_sampling,
                timestamps,
                weights,
                wi,
                source: Ghost(data@),
                bsize: Ghost(bin_size),
            },
        )
    }
}

/// Build a histogram from unsorted data: sort, bin, and build the
/// sampler.
impl Histogram {
    pub fn from_data(nbr_sampling: u32, data: Vec<usize>, bin_size: usize) -> (r: Result<
        Histogram,
        MixError,
    >)
        requires
            bin_size > 0,
            forall|i: int| 0 <= i < data@.len() ==> data@[i] <= usize::MAX - bin_size,
            data@.len() * data@.len() <= usize::MAX,
        ensures
            r is Ok <==> data@.len() >= 2,
            r is Ok ==> (exists|sdata: Seq<usize>|
                {
                    let h = r->Ok_0;
                    let pairs = spec_bins(sdata, bin_size as int);
                    &&& sorted(sdata)
                    &&& #[trigger] sdata.to_multiset() == data@.to_multiset()
                    &&& h.wf()
                    &&& h.spec_timestamps().len() == pairs.len()
                    &&& forall|j: int|
                        0 <= j < pairs.len() ==> h.spec_timestamps()[j] == pairs[j].0
                            && h.spec_weights()[j] == pairs[j].1
                    &&& h.spec_period() == sdata.last() - sdata[0]
                    &&& h.spec_nbr_sampling() == nbr_sampling
                    &&& (h.spec_timestamps()[0] as int) == first_bin(sdata, bin_size as int)
                    &&& h.spec_source() == sdata
                    &&& h.spec_bin_size() == bin_size
                }),
            r is Ok ==> ({
                let h = r->Ok_0;
                &&& h.spec_weights().len() == h.spec_timestamps().len()
                &&& h.spec_timestamps().len() > 0
                &&& (forall|j: int|
                    0 <= j < h.spec_weights().len() ==> 1 <= (#[trigger] h.spec_weights()[j]))
                &&& (forall|i: int, j: int|
                    0 <= i < j < h.spec_timestamps().len() ==> (
                    #[trigger] h.spec_timestamps()[i]) < (#[trigger] h.spec_timestamps()[j]))
                &&& (forall|j: int|
                    0 <= j < h.spec_timestamps().len() ==> ((
                    #[trigger] h.spec_timestamps()[j]) as int) % (bin_size as int) == 0)
            }),
    {
        let ghost d0 = data@;
        let mut data = data;
        sort_usizes(&mut data);
        proof {
            assert forall|i: int| 0 <= i < data@.len() implies data@[i] <= usize::MAX
                - bin_size by {
                broadcast use group_to_multiset_ensures;

                assert(data@.to_multiset().count(data@[i]) > 0);
                assert(d0.to_multiset().count(data@[i]) > 0);
                assert(d0.contains(data@[i]));
            }
        }
        let r = Self::from_sorted_data(nbr_sampling, &data, bin_size);
        proof {
            if r is Ok {
                assert(sorted(data@) && data@.to_multiset() == d0.to_multiset());
            }
        }
        r
    }

    /// Build a histogram from the JSON form `{"nbr_sampling": int,
    /// "data": [int, ...]}` and a bin size.
    #[verifier::loop_isolation(false)]
    pub fn from_json(json_data: &str, bin_size: usize) -> (r: Result<Histogram, MixError>)
        ensures
            r is Ok <==> hist_loadable(json_data@, bin_size as int),
            r is Ok ==> ({
                let (nbr, jdata) = hist_json_of(json_data@)->0;
                exists|sdata: Seq<usize>|
                    {
                        let h = r->Ok_0;
                        let pairs = spec_bins(sdata, bin_size as int);
                        &&& sorted(sdata)
                        &&& #[trigger] sdata.to_multiset() == jdata.map_values(
                            |d: u64| d as usize,
                        ).to_multiset()
                        &&& h.wf()
                        &&& h.spec_timestamps().len() == pairs.len()
                        &&& forall|j: int|
                            0 <= j < pairs.len() ==> h.spec_timestamps()[j] == pairs[j].0
                                && h.spec_weights()[j] == pairs[j].1
                        &&& h.spec_period() == sdata.last() - sdata[0]
                        &&& h.spec_nbr_sampling() == nbr
                        &&& (h.spec_timestamps()[0] as int) == first_bin(sdata, bin_size as int)
                        &&& h.spec_source() == sdata
                        &&& h.spec_bin_size() == bin_size
                    }
            }),
            r is Ok ==> ({
                let h = r->Ok_0;
                &&& h.spec_weights().len() == h.spec_timestamps().len()
                &&& h.spec_timestamps().len() > 0
                &&& (forall|j: int|
                    0 <= j < h.spec_weights().len() ==> 1 <= (#[trigger] h.spec_weights()[j]))
                &&& (forall|i: int, j: int|
                    0 <= i < j < h.spec_timestamps().len() ==> (
                    #[trigger] h.spec_timestamps()[i]) < (#[trigger] h.spec_timestamps()[j]))
                &&& (forall|j: int|
                    0 <= j < h.spec_timestamps().len() ==> ((
                    #[trigger] h.spec_timestamps()[j]) as int) % (bin_size as int) == 0)
            }),
    {
        if bin_size == 0 {
            return Err(MixError::new("the bin size must be positive"));
        }
        let (nbr, jdata) = match parse_hist_json(json_data) {
            Some(p) => p,
            None => {
                proof {
                    assert(hist_json_of(json_data@) is None);
                    assert(!hist_loadable(json_data@, bin_size as int));
                }
                return Err(MixError::new("the histogram data cannot be read"));
            },
        };
        let ghost gjdata = (hist_json_of(json_data@)->0).1;
        let n = jdata.len();
        if n < 2 {
            return Err(MixError::new("a histogram needs at least two data points"));
        }
        if n > usize::MAX / n {
            proof {
                assert(n * n > usize::MAX) by (nonlinear_arith)
                    requires
                        n > usize::MAX / n,
                        n >= 2,
                ;
            }
            return Err(MixError::new("too many data points for a histogram"));
        }
        proof {
            assert(n * n <= usize::MAX) by (nonlinear_arith)
                requires
                    n <= usize::MAX / n,
                    n >= 2,
            ;
        }
        let limit: u64 = (usize::MAX - bin_size) as u64;
        let mut data: Vec<usize> = Vec::new();
        let mut i: usize = 0;
        while i < n
            invariant
                0 <= i <= n,
                n == jdata@.len(),
                jdata@ == gjdata,
                bin_size > 0,
                limit == usize::MAX - bin_size,
                data@.len() == i,
                forall|j: int| 0 <= j < i ==> data@[j] == jdata@[j] as usize,
                forall|j: int| 0 <= j < i ==> data@[j] <= usize::MAX - bin_size,
                forall|j: int| 0 <= j < i ==> gjdata[j] <= usize::MAX - bin_size,
            decreases n - i,
        {
            let d = jdata[i];
            if d > limit {
                proof {
                    assert(gjdata[i as int] > usize::MAX - bin_size);
                    assert(!hist_loadable(json_data@, bin_size as int));
                }
                return Err(MixError::new("a histogram datum does not fit a bin"));
            }
            data.push(d as usize);
            i = i + 1;
        }
        proof {
            assert(data@ =~= gjdata.map_values(|d: u64| d as usize));
        }
        proof {
            assert(hist_loadable(json_data@, bin_size as int));
        }
        let r = Self::from_data(nbr, data, bin_size);
        proof {
            assert(r is Ok);
        }
        r
    }
}

/// What the histogram JSON text denotes: the number of draws per period
/// and the data list, or nothing when the text is not of that shape.
pub uninterp spec fn hist_json_of(s: Seq<char>) -> Option<(u32, Seq<u64>)>;

/// Everything `from_json` needs of its input: well-shaped JSON with at
/// least two data, each small enough to bin, and few enough to weigh.
pub open spec fn hist_loadable(s: Seq<char>, bin_size: int) -> bool {
    &&& bin_size > 0
    &&& hist_json_of(s) is Some
    &&& ({
        let jdata = (hist_json_of(s)->0).1;
        &&& jdata.len() >= 2
        &&& forall|i: int| 0 <= i < jdata.len() ==> jdata[i] <= usize::MAX - bin_size
        &&& jdata.len() * jdata.len() <= usize::MAX
    })
}

/// Relies on serde_json's `from_str` for `Value` and its accessors: the
/// parse of `{"nbr_sampling": int, "data": [int, ...]}`, a function of
/// the text alone.
#[verifier::external_body]
fn parse_hist_json(s: &str) -> (r: Option<(u32, Vec<u64>)>)
    ensures
        match (r, hist_json_of(s@)) {
            (Some(p), Some(q)) => p.0 == q.0 && p.1@ == q.1,
            (None, None) => true,
            _ => false,
        },
{
    let v: serde_json::Value = serde_json::from_str(s).ok()?;
    let n = u32::try_from(v.get("nbr_sampling")?.as_u64()?).ok()?;
    let arr = v.get("data")?.as_array()?;
    let mut data = Vec::new();
    for d in arr {
        data.push(d.as_u64()?);
    }
    Some((n, data))
}

/// Bounds carried by the binning pass: the open bin is non-negative, the
/// running count stays within the data seen, at most one pair is emitted
/// per datum, and every emitted count is positive and within the data.
pub proof fn lemma_bin_fold_bounds(data: Seq<usize>, bin_size: int, upto: int)
    requires
        sorted(data),
        bin_size > 0,
        0 <= upto <= data.len(),
        forall|i: int| 0 <= i < data.len() ==> data[i] <= usize::MAX - bin_size,
    ensures
        ({
            let s = bin_fold(data, bin_size, upto);
            &&& 0 <= s.0 <= usize::MAX
            &&& 0 <= s.1 <= upto
            &&& upto >= 1 ==> s.1 >= 1
            &&& s.2.len() <= upto
            &&& forall|j: int|
                0 <= j < s.2.len() ==> 0 <= (#[trigger] s.2[j]).0 <= usize::MAX && 1 <= s.2[j].1
                    <= data.len()
        }),
    decreases upto,
{
    if data.len() > 0 && upto <= 0 {
        let f = data[0] as int;
        lemma_next_bin_props(f, bin_size);
        assert(data[0] <= usize::MAX - bin_size);
    }
    if upto > 0 && data.len() > 0 {
        lemma_bin_fold_bounds(data, bin_size, upto - 1);
        let t = data[upto - 1] as int;
        assert(0 <= t <= usize::MAX - bin_size);
        vstd::arithmetic::div_mod::lemma_mod_bound(t, bin_size);
        assert(0 <= t % bin_size < bin_size);
    }
}

/// The last datum always emits a pair, so two or more data leave at least
/// one bin.
pub proof fn lemma_last_datum_emits(data: Seq<usize>, bin_size: int)
    requires
        data.len() >= 1,
    ensures
        bin_fold(data, bin_size, data.len() as int).2.len() >= 1,
{
}

/// Shape carried by the binning pass: every emitted bin is a multiple of
/// the bin size, emitted bins strictly increase, the first emitted bin is
/// the starting bin zero, and the open bin is a multiple no smaller than
/// the last emitted one, still strictly above it while data remain.
pub proof fn lemma_bin_fold_shape(data: Seq<usize>, bin_size: int, upto: int)
    requires
        sorted(data),
        bin_size > 0,
        0 <= upto <= data.len(),
        forall|i: int| 0 <= i < data.len() ==> data[i] <= usize::MAX - bin_size,
    ensures
        ({
            let s = bin_fold(data, bin_size, upto);
            &&& s.0 % bin_size == 0
            &&& ((data.len() > 0 && s.2.len() == 0) ==> s.0 == first_bin(data, bin_size))
            &&& (s.2.len() > 0 ==> s.2[0].0 == first_bin(data, bin_size))
            &&& (forall|i: int, j: int|
                0 <= i < j < s.2.len() ==> (#[trigger] s.2[i]).0 < (#[trigger] s.2[j]).0)
            &&& (forall|j: int| 0 <= j < s.2.len() ==> (#[trigger] s.2[j]).0 % bin_size == 0)
            &&& (s.2.len() > 0 ==> s.0 >= s.2[s.2.len() - 1].0)
            &&& ((upto < data.len() && s.2.len() > 0) ==> s.0 > s.2[s.2.len() - 1].0)
        }),
    decreases upto,
{
    if upto <= 0 || data.len() == 0 {
        assert((0int) % bin_size == 0) by (nonlinear_arith)
            requires
                bin_size > 0,
        ;
        if data.len() > 0 {
            let f = data[0] as int;
            lemma_next_bin_props(f, bin_size);
            assert(first_bin(data, bin_size) % bin_size == 0);
        }
    } else {
        lemma_bin_fold_shape(data, bin_size, upto - 1);
        let p = bin_fold(data, bin_size, upto - 1);
        let s = bin_fold(data, bin_size, upto);
        let t = data[upto - 1] as int;
        let first = data[0] as int;
        assert(data[0] <= data[upto - 1]);
        if close_cond(t, first, p.0, bin_size) {
            if upto == data.len() {
                assert(s.2 == p.2.push((p.0, p.1 + 1)));
                assert forall|i: int, j: int| 0 <= i < j < s.2.len() implies (
                #[trigger] s.2[i]).0 < (#[trigger] s.2[j]).0 by {
                    if j < p.2.len() {
                        assert(p.2[i].0 < p.2[j].0);
                    } else {
                        assert(p.2[i].0 <= p.2[p.2.len() - 1].0);
                        assert(p.0 > p.2[p.2.len() - 1].0);
                    }
                }
                assert forall|j: int| 0 <= j < s.2.len() implies (#[trigger] s.2[j]).0 % bin_size
                    == 0 by {
                    if j < p.2.len() {
                        assert(p.2[j].0 % bin_size == 0);
                    }
                }
            }
        } else {
            vstd::arithmetic::div_mod::lemma_fundamental_div_mod(t, bin_size);
            vstd::arithmetic::div_mod::lemma_mod_bound(t, bin_size);
            let q = t / bin_size;
            let prev = t - (t % bin_size);
            assert(prev == q * bin_size);
            vstd::arithmetic::div_mod::lemma_mod_multiples_basic(q, bin_size);
            assert((q + 1) * bin_size == q * bin_size + bin_size) by (nonlinear_arith);
            vstd::arithmetic::div_mod::lemma_mod_multiples_basic(q + 1, bin_size);
            let nb = next_bin(t, bin_size);
            assert(nb % bin_size == 0);
            assert(2 * nb >= 2 * t - bin_size);
            assert(2 * (t - first) > 2 * p.0 + bin_size);
            assert(nb > p.0);
            assert(s.0 == nb);
            assert(s.2 == p.2.push((p.0, p.1)));
            if p.2.len() == 0 {
                assert(p.0 == first_bin(data, bin_size));
                assert(s.2[0].0 == first_bin(data, bin_size));
            }
            assert forall|i: int, j: int| 0 <= i < j < s.2.len() implies (#[trigger] s.2[i]).0 < (
            #[trigger] s.2[j]).0 by {
                if j < p.2.len() {
                    assert(p.2[i].0 < p.2[j].0);
                } else {
                    assert(p.2[i].0 <= p.2[p.2.len() - 1].0);
                    assert(p.0 > p.2[p.2.len() - 1].0);
                }
            }
            assert forall|j: int| 0 <= j < s.2.len() implies (#[trigger] s.2[j]).0 % bin_size
                == 0 by {
                if j < p.2.len() {
                    assert(p.2[j].0 % bin_size == 0);
                }
            }
        }
    }
}

/// The emitted counts feed the weighted sampler: at least one bin, counts
/// positive, and the bound the alias method needs.
proof fn lemma_weights_feed_sampler(data: Seq<usize>, bin_size: int, weights: Seq<usize>)
    requires
        sorted(data),
        bin_size > 0,
        2 <= data.len(),
        data.len() * data.len() <= usize::MAX,
        forall|i: int| 0 <= i < data.len() ==> data[i] <= usize::MAX - bin_size,
        weights.len() == spec_bins(data, bin_size).len(),
        forall|j: int|
            0 <= j < weights.len() ==> weights[j] == #[trigger] spec_bins(data, bin_size)[j].1,
    ensures
        0 < weights.len() <= u32::MAX,
        forall|i: int|
            0 <= i < weights.len() ==> #[trigger] weights[i] <= usize::MAX / (
            weights.len() as usize),
        sum_usize(weights) > 0,
{
    lemma_bin_fold_bounds(data, bin_size, data.len() as int);
    lemma_last_datum_emits(data, bin_size);
    let n = data.len() as int;
    let w = weights.len() as int;
    assert(0 < w <= n);
    assert(n <= u32::MAX) by (nonlinear_arith)
        requires
            n * n <= usize::MAX,
            n >= 2,
            usize::MAX >= u32::MAX,
    ;
    let ghost pairs = bin_fold(data, bin_size, data.len() as int).2;
    assert forall|i: int| 0 <= i < w implies #[trigger] weights[i] <= usize::MAX / (
        weights.len() as usize) by {
        assert(1 <= pairs[i].1 <= data.len());
        assert(weights[i] <= n);
        assert(n <= (usize::MAX as int) / w) by (nonlinear_arith)
            requires
                n * n <= usize::MAX,
                0 < w <= n,
        ;
    }
    assert forall|i: int| 0 <= i < weights.len() implies #[trigger] weights[i] >= 1 by {
        assert(1 <= pairs[i].1);
    }
    lemma_sum_usize_positive(weights);
}

/// Absolute distance between a bin value and a datum.
pub open spec fn bin_dist(b: int, d: int) -> int {
    if b >= d {
        b - d
    } else {
        d - b
    }
}

/// The nearest multiple of the bin size to `t`: a multiple, within half
/// a bin of `t`, and no further out than one bin.
proof fn lemma_next_bin_props(t: int, bin_size: int)
    requires
        bin_size > 0,
        t >= 0,
    ensures
        next_bin(t, bin_size) % bin_size == 0,
        2 * bin_dist(next_bin(t, bin_size), t) <= bin_size,
        0 <= next_bin(t, bin_size) <= t + bin_size,
{
    vstd::arithmetic::div_mod::lemma_fundamental_div_mod(t, bin_size);
    vstd::arithmetic::div_mod::lemma_mod_bound(t, bin_size);
    let q = t / bin_size;
    let prev = t - (t % bin_size);
    assert(t == bin_size * q + t % bin_size);
    assert(prev == bin_size * q);
    assert(prev == q * bin_size) by (nonlinear_arith)
        requires
            prev == bin_size * q,
    ;
    vstd::arithmetic::div_mod::lemma_mod_multiples_basic(q, bin_size);
    assert(prev % bin_size == 0);
    assert((q + 1) * bin_size == q * bin_size + bin_size) by (nonlinear_arith);
    vstd::arithmetic::div_mod::lemma_mod_multiples_basic(q + 1, bin_size);
    assert((prev + bin_size) % bin_size == 0);
    assert(t % bin_size <= t) by (nonlinear_arith)
        requires
            t >= 0,
            bin_size > 0,
    ;
    assert(prev <= t < prev + bin_size);
}

/// Carried through the binning pass: the open bin, and every emitted bin,
/// is a multiple of the bin size within half a bin of one of the data.
proof fn lemma_bin_fold_near(data: Seq<usize>, bin_size: int, upto: int)
    requires
        sorted(data),
        bin_size > 0,
        1 <= upto <= data.len(),
        forall|i: int| 0 <= i < data.len() ==> data[i] <= usize::MAX - bin_size,
    ensures
        ({
            let s = bin_fold(data, bin_size, upto);
            &&& s.0 % bin_size == 0
            &&& exists|k: int|
                0 <= k < data.len() && 2 * bin_dist(s.0, data[k] as int) <= bin_size
            &&& forall|j: int|
                0 <= j < s.2.len() ==> ((#[trigger] s.2[j]).0 % bin_size == 0 && exists|k: int|
                    0 <= k < data.len() && 2 * bin_dist(s.2[j].0, data[k] as int) <= bin_size)
        }),
    decreases upto,
{
    reveal_with_fuel(bin_fold, 3);
    let s = bin_fold(data, bin_size, upto);
    let t = data[upto - 1] as int;
    let first = data[0] as int;
    if upto == 1 {
        // the first datum always lands in the opening bin, the nearest
        // multiple of the bin size to that datum
        lemma_next_bin_props(first, bin_size);
        assert(close_cond(t, first, first_bin(data, bin_size), bin_size));
        assert(s.0 == first_bin(data, bin_size));
        assert(0 <= 0 < data.len() && 2 * bin_dist(s.0, data[0] as int) <= bin_size);
    } else {
        lemma_bin_fold_near(data, bin_size, upto - 1);
        let p = bin_fold(data, bin_size, upto - 1);
        if close_cond(t, first, p.0, bin_size) {
        } else {
            lemma_next_bin_props(t, bin_size);
            assert(s.0 == next_bin(t, bin_size));
            assert(0 <= upto - 1 < data.len() && 2 * bin_dist(s.0, data[upto - 1] as int)
                <= bin_size);
        }
    }
}

/// Every retained bin value is a nearest multiple of the bin size to one
/// of the data, and lies within one bin of the span of the data: the
/// pass opens at the nearest multiple to the smallest datum and every
/// later bin is the nearest multiple to the datum that opened it.
pub proof fn lemma_bins_near_data(data: Seq<usize>, bin_size: int)
    requires
        sorted(data),
        bin_size > 0,
        1 <= data.len(),
        forall|i: int| 0 <= i < data.len() ==> data[i] <= usize::MAX - bin_size,
    ensures
        forall|j: int|
            0 <= j < spec_bins(data, bin_size).len() ==> ({
                let b = (#[trigger] spec_bins(data, bin_size)[j]).0;
                &&& b % bin_size == 0
                &&& exists|k: int|
                    0 <= k < data.len() && 2 * bin_dist(b, data[k] as int) <= bin_size
                &&& data[0] - bin_size <= b <= data.last() + bin_size
            }),
{
    lemma_bin_fold_near(data, bin_size, data.len() as int);
    let pairs = spec_bins(data, bin_size);
    assert forall|j: int| 0 <= j < pairs.len() implies ({
        let b = (#[trigger] pairs[j]).0;
        &&& b % bin_size == 0
        &&& exists|k: int| 0 <= k < data.len() && 2 * bin_dist(b, data[k] as int) <= bin_size
        &&& data[0] - bin_size <= b <= data.last() + bin_size
    }) by {
        let b = pairs[j].0;
        assert(bin_fold(data, bin_size, data.len() as int).2[j].0 == b);
        let k = choose|k: int|
            0 <= k < data.len() && 2 * bin_dist(b, data[k] as int) <= bin_size;
        assert(data[0] <= data[k] <= data[data.len() - 1]);
        assert(data[0] - bin_size <= b <= data.last() + bin_size);
    }
}

/// A sequence of positive summands has a positive sum.
proof fn lemma_sum_usize_positive(s: Seq<usize>)
    requires
        s.len() > 0,
        forall|i: int| 0 <= i < s.len() ==> #[trigger] s[i] >= 1,
    ensures
        sum_usize(s) >= s.len(),
    decreases s.len(),
{
    reveal_with_fuel(sum_usize, 3);
    assert(s[s.len() - 1] >= 1);
    if s.len() > 1 {
        assert forall|i: int| 0 <= i < s.len() - 1 implies #[trigger] s.drop_last()[i] >= 1 by {
            assert(s.drop_last()[i] == s[i]);
        }
        lemma_sum_usize_positive(s.drop_last());
    }
}

/// Sort a list of timestamps, smallest first.
#[verifier::loop_isolation(false)]
pub fn sort_usizes(data: &mut Vec<usize>)
    ensures
        sorted(final(data)@),
        final(data)@.to_multiset() == old(data)@.to_multiset(),
        final(data)@.len() == old(data)@.len(),
{
    let mut out: Vec<usize> = Vec::new();
    while data.len() > 0
        invariant
            sorted(out@),
            out@.to_multiset().add(data@.to_multiset()) =~= old(data)@.to_multiset(),
            out@.len() + data@.len() == old(data)@.len(),
            forall|i: int, j: int|
                0 <= i < out@.len() && 0 <= j < data@.len() ==> #[trigger] out@[i]
                    <= #[trigger] data@[j],
        decreases data.len(),
    {
        // find the smallest remaining element
        let mut min_idx: usize = 0;
        let mut k: usize = 1;
        while k < data.len()
            invariant
                0 <= min_idx < data@.len(),
                min_idx < k <= data@.len(),
                forall|j: int| 0 <= j < k ==> data@[min_idx as int] <= #[trigger] data@[j],
            decreases data.len() - k,
        {
            if data[k] < data[min_idx] {
                min_idx = k;
            }
            k = k + 1;
        }
        let ghost d0 = data@;
        let ghost o0 = out@;
        let x = data.remove(min_idx);
        out.push(x);
        proof {
            assert(x == d0[min_idx as int]);
            assert(data@ == d0.remove(min_idx as int));
            assert(data@.to_multiset() =~= d0.to_multiset().remove(x));
            assert(out@.to_multiset() =~= o0.to_multiset().insert(x));
            assert(out@.to_multiset().add(data@.to_multiset()) =~= o0.to_multiset().add(
                d0.to_multiset(),
            ));
            assert(forall|j: int|
                0 <= j < data@.len() ==> x <= #[trigger] data@[j]) by {
                assert(forall|j: int|
                    0 <= j < data@.len() ==> data@[j] == if j < min_idx {
                        d0[j]
                    } else {
                        d0[j + 1]
                    });
            }
        }
    }
    proof {
        assert(data@.to_multiset() =~= vstd::multiset::Multiset::<usize>::empty());
        assert(out@.to_multiset().add(data@.to_multiset()) =~= out@.to_multiset());
        assert(out@.to_multiset() == old(data)@.to_multiset());
    }
    let ghost ofinal = out@;
    *data = out;
    proof {
        assert(data@ == ofinal);
    }
}

} // verus!
