use vstd::prelude::*;

use crate::codec::spec_decode;
use crate::error::Error;
use crate::features::{assemble_features, clock_now, entries_view, spec_features};
use crate::histogram::{occurrences, FeeBuckets};
use crate::model::{spec_gather, spec_lookup, ModelData, ModelView};

verus! {

/// The histogram that feeds the models: fifty buckets, the last one from 500 up.
pub const HISTOGRAM_BUCKETS: usize = 50;
pub const HISTOGRAM_MAX: u64 = 500;

/// Which of the two trained models serves a request.
#[derive(PartialEq, Eq, Structural, Clone, Copy, Debug)]
pub enum ModelChoice {
    Low,
    High,
}

pub open spec fn spec_choose_model(block_target: u16) -> ModelChoice {
    if block_target <= 2 {
        ModelChoice::Low
    } else {
        ModelChoice::High
    }
}

/// Targets of at most two blocks go to the low model, the rest to the high one.
pub fn choose_model(block_target: u16) -> (r: ModelChoice)
    ensures
        r == spec_choose_model(block_target),
{
    if block_target <= 2 {
        ModelChoice::Low
    } else {
        ModelChoice::High
    }
}

/// Bucket counts of the fee histogram of `rates`.
pub open spec fn spec_counts(rates: Seq<u64>) -> Seq<int> {
    Seq::new(
        HISTOGRAM_BUCKETS as nat,
        |i: int| occurrences(HISTOGRAM_BUCKETS as nat, HISTOGRAM_MAX as nat, rates, i as nat) as int,
    )
}

/// The named feature vector of a request made at time `ts`.
pub open spec fn spec_request_features(
    block_target: u16,
    ts: u32,
    rates: Seq<u64>,
    last_block_ts: u32,
) -> Seq<(Seq<u8>, int)> {
    spec_features(block_target, ts, spec_counts(rates), last_block_ts)
}

/// The abstract value of a result of `inputs_at`.
pub open spec fn inputs_view(r: Result<(ModelChoice, Vec<i128>), Error>) -> Result<
    (ModelChoice, Seq<int>),
    Error,
> {
    match r {
        Ok((c, v)) => Ok((c, v@.map_values(|x: i128| x as int))),
        Err(e) => Err(e),
    }
}

/// The named feature vector of a request made at time `ts`: the target, the UTC
/// weekday and hour, the seconds since the last block, and the first sixteen
/// buckets of the fee histogram of `fee_rates`, given in whole units.
pub fn request_features(block_target: u16, ts: u32, fee_rates: &[u64], last_block_ts: u32) -> (r: Vec<
    (Vec<u8>, i128),
>)
    ensures
        entries_view(r@) == spec_request_features(block_target, ts, fee_rates@, last_block_ts),
{
    let buckets = FeeBuckets { bucket_count: HISTOGRAM_BUCKETS, max_value: HISTOGRAM_MAX };
    let hist = buckets.get(fee_rates);
    assert(hist@.map_values(|c: u64| c as int) =~= spec_counts(fee_rates@));
    assemble_features(block_target, ts, &hist, last_block_ts)
}

/// The two trained models, for short and for longer confirmation targets.
pub struct FeeModel {
    pub low: ModelData,
    pub high: ModelData,
}

impl FeeModel {
    pub open spec fn wf(&self) -> bool {
        self.low@.wf() && self.high@.wf()
    }

    /// The model that serves `block_target`.
    pub open spec fn spec_model(&self, block_target: u16) -> ModelView {
        match spec_choose_model(block_target) {
            ModelChoice::Low => self.low@,
            ModelChoice::High => self.high@,
        }
    }

    /// The chosen model and its inputs for a request made at time `ts`.
    pub open spec fn spec_inputs(&self, block_target: u16, ts: u32, rates: Seq<u64>, last_block_ts: u32) -> Result<
        (ModelChoice, Seq<int>),
        Error,
    > {
        match spec_gather(
            self.spec_model(block_target).features,
            spec_request_features(block_target, ts, rates, last_block_ts),
        ) {
            Some(v) => Ok((spec_choose_model(block_target), v)),
            None => Err(Error::MissingFeature),
        }
    }

    /// Loads both models from their bytes; `Deserialize` when either is not a
    /// well-formed model.
    pub fn new(low_bytes: &[u8], high_bytes: &[u8]) -> (r: Result<FeeModel, Error>)
        ensures
            match r {
                Ok(f) => f.wf() && spec_decode(low_bytes@) == Some(f.low@) && spec_decode(high_bytes@)
                    == Some(f.high@),
                Err(e) => e == Error::Deserialize && (spec_decode(low_bytes@) is None || spec_decode(
                    high_bytes@,
                ) is None),
            },
    {
        let low = match ModelData::decode(low_bytes) {
            Ok(m) => m,
            Err(e) => {
                return Err(e);
            },
        };
        let high = match ModelData::decode(high_bytes) {
            Ok(m) => m,
            Err(e) => {
                return Err(e);
            },
        };
        Ok(FeeModel { low, high })
    }

    /// The model that serves `block_target`.
    pub fn model(&self, choice: ModelChoice) -> (r: &ModelData)
        ensures
            r == (match choice {
                ModelChoice::Low => &self.low,
                ModelChoice::High => &self.high,
            }),
    {
        match choice {
            ModelChoice::Low => &self.low,
            ModelChoice::High => &self.high,
        }
    }

    /// The chosen model and its inputs, in its own order, for a request made at
    /// time `ts`; `MissingFeature` when the model declares a name that the request
    /// does not supply.
    pub fn inputs_at(&self, block_target: u16, ts: u32, fee_rates: &[u64], last_block_ts: u32) -> (r: Result<
        (ModelChoice, Vec<i128>),
        Error,
    >)
        ensures
            inputs_view(r) == self.spec_inputs(block_target, ts, fee_rates@, last_block_ts),
    {
        let features = request_features(block_target, ts, fee_rates, last_block_ts);
        let choice = choose_model(block_target);
        match self.model(choice).gather(&features) {
            Ok(v) => Ok((choice, v)),
            Err(e) => Err(e),
        }
    }

    /// What a request gets when the clock reads `now` seconds since the epoch.
    pub open spec fn spec_inputs_at_clock(
        &self,
        block_target: u16,
        now: i64,
        rates: Seq<u64>,
        last_block_ts: u32,
    ) -> Result<(ModelChoice, Seq<int>), Error> {
        if now < 0 || now > u32::MAX {
            Err(Error::ClockOutOfRange)
        } else {
            self.spec_inputs(block_target, now as u32, rates, last_block_ts)
        }
    }

    /// As `inputs_at`, at the clock reading `now`; `ClockOutOfRange` when `now` is
    /// not a `u32` second count.
    pub fn inputs_at_clock(&self, block_target: u16, now: i64, fee_rates: &[u64], last_block_ts: u32) -> (r:
        Result<(ModelChoice, Vec<i128>), Error>)
        ensures
            inputs_view(r) == self.spec_inputs_at_clock(block_target, now, fee_rates@, last_block_ts),
            r == Err::<(ModelChoice, Vec<i128>), Error>(Error::ClockOutOfRange) <==> (now < 0 || now
                > u32::MAX),
    {
        if now < 0 || now > u32::MAX as i64 {
            return Err(Error::ClockOutOfRange);
        }
        let r = self.inputs_at(block_target, now as u32, fee_rates, last_block_ts);
        assert(inputs_view(r) != Err::<(ModelChoice, Seq<int>), Error>(Error::ClockOutOfRange));
        r
    }

    /// As `inputs_at`, at `timestamp`, or at the time that the clock reports when
    /// none is given; `ClockOutOfRange` when that time is not a `u32` second count.
    pub fn inputs(
        &self,
        block_target: u16,
        timestamp: Option<u32>,
        fee_rates: &[u64],
        last_block_ts: u32,
    ) -> (r: Result<(ModelChoice, Vec<i128>), Error>)
        ensures
            match timestamp {
                Some(ts) => inputs_view(r) == self.spec_inputs(block_target, ts, fee_rates@, last_block_ts),
                None => exists|now: i64|
                    inputs_view(r) == self.spec_inputs_at_clock(
                        block_target,
                        now,
                        fee_rates@,
                        last_block_ts,
                    ),
            },
    {
        match timestamp {
            Some(ts) => self.inputs_at(block_target, ts, fee_rates, last_block_ts),
            None => {
                let now = clock_now();
                self.inputs_at_clock(block_target, now, fee_rates, last_block_ts)
            },
        }
    }
}

/// A target of two blocks is served by the low model, one of three by the high one.
pub proof fn lemma_threshold(f: FeeModel)
    ensures
        spec_choose_model(2) == ModelChoice::Low,
        spec_choose_model(3) == ModelChoice::High,
        f.spec_model(2) == f.low@,
        f.spec_model(3) == f.high@,
{
}

/// Two requests with the same explicit arguments, the time included, get the same
/// model and the same inputs.
pub proof fn lemma_determinism(
    f: FeeModel,
    block_target: u16,
    ts: u32,
    rates: Seq<u64>,
    last_block_ts: u32,
    r1: Result<(ModelChoice, Seq<int>), Error>,
    r2: Result<(ModelChoice, Seq<int>), Error>,
)
    requires
        r1 == f.spec_inputs(block_target, ts, rates, last_block_ts),
        r2 == f.spec_inputs(block_target, ts, rates, last_block_ts),
    ensures
        r1 == r2,
{
}

proof fn lemma_lookup_by_names(e1: Seq<(Seq<u8>, int)>, e2: Seq<(Seq<u8>, int)>, name: Seq<u8>)
    requires
        e1.len() == e2.len(),
        forall|i: int| 0 <= i < e1.len() ==> #[trigger] e1[i].0 == e2[i].0,
    ensures
        spec_lookup(e1, name) is Some <==> spec_lookup(e2, name) is Some,
    decreases e1.len(),
{
    if e1.len() > 0 {
        let (t1, t2) = (e1.drop_first(), e2.drop_first());
        assert forall|i: int| 0 <= i < t1.len() implies #[trigger] t1[i].0 == t2[i].0 by {
            assert(t1[i] == e1[i + 1] && t2[i] == e2[i + 1]);
        }
        assert(e1[0].0 == e2[0].0);
        lemma_lookup_by_names(t1, t2, name);
    }
}

/// With no fee observations every bucket feature is zero, and such a request fails
/// exactly where the same request with observations fails.
pub proof fn lemma_empty_observations(
    f: FeeModel,
    block_target: u16,
    ts: u32,
    rates: Seq<u64>,
    last_block_ts: u32,
)
    ensures
        forall|i: int|
            4 <= i < 20 ==> (#[trigger] spec_request_features(
                block_target,
                ts,
                Seq::empty(),
                last_block_ts,
            )[i]).1 == 0,
        f.spec_inputs(block_target, ts, Seq::empty(), last_block_ts) is Ok <==> f.spec_inputs(
            block_target,
            ts,
            rates,
            last_block_ts,
        ) is Ok,
{
    let e1 = spec_request_features(block_target, ts, Seq::empty(), last_block_ts);
    let e2 = spec_request_features(block_target, ts, rates, last_block_ts);
    let names = f.spec_model(block_target).features;
    assert forall|i: int| 0 <= i < e1.len() implies #[trigger] e1[i].0 == e2[i].0 by {}
    assert forall|i: int| 0 <= i < names.len() implies (spec_lookup(e1, names[i]) is Some
        <==> spec_lookup(e2, names[i]) is Some) by {
        lemma_lookup_by_names(e1, e2, names[i]);
    }
}

} // verus!
