use vstd::prelude::*;

use crate::error::Error;

verus! {

/// Day of the week in UTC, Monday being 0: the epoch fell on a Thursday.
pub open spec fn spec_weekday(ts: int) -> int {
    (ts / 86400 + 3) % 7
}

/// Hour of the day in UTC.
pub open spec fn spec_hour(ts: int) -> int {
    (ts % 86400) / 3600
}

/// Relies on chrono's `DateTime::from_timestamp` and `Datelike::weekday` with
/// `Weekday::num_days_from_monday`: the UTC weekday of a second count, Monday as 0.
/// Every `u32` count lies in the range that `from_timestamp` accepts.
#[verifier::external_body]
fn utc_weekday(ts: u32) -> (r: u32)
    ensures
        r as int == spec_weekday(ts as int),
{
    match chrono::DateTime::from_timestamp(ts as i64, 0) {
        Some(t) => chrono::Datelike::weekday(&t).num_days_from_monday(),
        None => 0,
    }
}

/// Relies on chrono's `DateTime::from_timestamp` and `Timelike::hour`: the UTC hour of
/// a second count. Every `u32` count lies in the range that `from_timestamp` accepts.
#[verifier::external_body]
fn utc_hour(ts: u32) -> (r: u32)
    ensures
        r as int == spec_hour(ts as int),
{
    match chrono::DateTime::from_timestamp(ts as i64, 0) {
        Some(t) => chrono::Timelike::hour(&t),
        None => 0,
    }
}

/// Relies on chrono's `From<SystemTime> for DateTime<Utc>` and `DateTime::timestamp`:
/// the current time in whole seconds since the epoch, negative for a clock set before
/// it (unlike `Utc::now`, which panics there). Nothing is promised of its value. The
/// conversion still unwraps a date outside chrono's range, some 262,000 years from the
/// epoch.
#[verifier::external_body]
pub(crate) fn clock_now() -> (r: i64) {
    chrono::DateTime::<chrono::Utc>::from(std::time::SystemTime::now()).timestamp()
}

/// Weekday of a timestamp, Monday being 0.
pub fn day_of_week(ts: u32) -> (r: u32)
    ensures
        r as int == spec_weekday(ts as int),
        r < 7,
{
    utc_weekday(ts)
}

/// Hour of a timestamp, 0 to 23.
pub fn hour_of_day(ts: u32) -> (r: u32)
    ensures
        r as int == spec_hour(ts as int),
        r < 24,
{
    utc_hour(ts)
}

/// How many histogram buckets the models read.
pub const MODEL_BUCKETS: usize = 16;

/// `confirms_in`, in ASCII.
pub open spec fn name_confirms_in() -> Seq<u8> {
    seq![99u8, 111u8, 110u8, 102u8, 105u8, 114u8, 109u8, 115u8, 95u8, 105u8, 110u8]
}

/// `day_of_week`, in ASCII.
pub open spec fn name_day_of_week() -> Seq<u8> {
    seq![100u8, 97u8, 121u8, 95u8, 111u8, 102u8, 95u8, 119u8, 101u8, 101u8, 107u8]
}

/// `hour`, in ASCII.
pub open spec fn name_hour() -> Seq<u8> {
    seq![104u8, 111u8, 117u8, 114u8]
}

/// `delta_last`, in ASCII.
pub open spec fn name_delta_last() -> Seq<u8> {
    seq![100u8, 101u8, 108u8, 116u8, 97u8, 95u8, 108u8, 97u8, 115u8, 116u8]
}

/// Name of bucket `i`: `b` (98) followed by `i` in decimal (`0` is 48).
pub open spec fn bucket_name(i: nat) -> Seq<u8> {
    if i < 10 {
        seq![98u8, (48u8 + i) as u8]
    } else {
        seq![98u8, (48u8 + i / 10) as u8, (48u8 + i % 10) as u8]
    }
}

/// The named feature vector of one request, as name and value pairs.
pub open spec fn spec_features(block_target: u16, ts: u32, counts: Seq<int>, last_block_ts: u32) -> Seq<
    (Seq<u8>, int),
> {
    seq![
        (name_confirms_in(), block_target as int),
        (name_day_of_week(), spec_weekday(ts as int)),
        (name_hour(), spec_hour(ts as int)),
        (name_delta_last(), ts - last_block_ts),
    ] + Seq::new(16, |i: int| (bucket_name(i as nat), counts[i]))
}

/// The abstract value of a feature vector.
pub open spec fn entries_view(v: Seq<(Vec<u8>, i128)>) -> Seq<(Seq<u8>, int)> {
    v.map_values(|e: (Vec<u8>, i128)| (e.0@, e.1 as int))
}

fn confirms_in_name() -> (r: Vec<u8>)
    ensures
        r@ == name_confirms_in(),
{
    vec![99u8, 111u8, 110u8, 102u8, 105u8, 114u8, 109u8, 115u8, 95u8, 105u8, 110u8]
}

fn day_of_week_name() -> (r: Vec<u8>)
    ensures
        r@ == name_day_of_week(),
{
    vec![100u8, 97u8, 121u8, 95u8, 111u8, 102u8, 95u8, 119u8, 101u8, 101u8, 107u8]
}

fn hour_name() -> (r: Vec<u8>)
    ensures
        r@ == name_hour(),
{
    vec![104u8, 111u8, 117u8, 114u8]
}

fn delta_last_name() -> (r: Vec<u8>)
    ensures
        r@ == name_delta_last(),
{
    vec![100u8, 101u8, 108u8, 116u8, 97u8, 95u8, 108u8, 97u8, 115u8, 116u8]
}

/// `b` (98) followed by the decimal digits of `i` (`0` is 48).
fn bucket_name_of(i: u8) -> (r: Vec<u8>)
    requires
        i < 100,
    ensures
        r@ == bucket_name(i as nat),
{
    if i < 10 {
        vec![98u8, 48u8 + i]
    } else {
        vec![98u8, 48u8 + i / 10, 48u8 + i % 10]
    }
}

/// The named feature vector of one request: the target, the weekday, the hour, the
/// seconds since the last block, and the first sixteen buckets of `hist`.
pub fn assemble_features(block_target: u16, ts: u32, hist: &Vec<u64>, last_block_ts: u32) -> (r: Vec<
    (Vec<u8>, i128),
>)
    requires
        hist@.len() >= MODEL_BUCKETS,
    ensures
        entries_view(r@) == spec_features(
            block_target,
            ts,
            hist@.map_values(|c: u64| c as int),
            last_block_ts,
        ),
{
    let mut v: Vec<(Vec<u8>, i128)> = Vec::new();
    v.push((confirms_in_name(), block_target as i128));
    v.push((day_of_week_name(), day_of_week(ts) as i128));
    v.push((hour_name(), hour_of_day(ts) as i128));
    v.push((delta_last_name(), ts as i128 - last_block_ts as i128));
    let mut i: usize = 0;
    while i < MODEL_BUCKETS
        invariant
            i <= MODEL_BUCKETS,
            hist@.len() >= MODEL_BUCKETS,
            v@.len() == 4 + i,
            entries_view(v@) == spec_features(
                block_target,
                ts,
                hist@.map_values(|c: u64| c as int),
                last_block_ts,
            ).subrange(
                0,
                4 + i as int,
            ),
        decreases MODEL_BUCKETS - i,
    {
        let name = bucket_name_of(i as u8);
        let count = hist[i];
        v.push((name, count as i128));
        i = i + 1;
    }
    v
}

} // verus!
