use fee_estimator::estimator::{choose_model, request_features, HISTOGRAM_BUCKETS, HISTOGRAM_MAX};
use fee_estimator::features::{day_of_week, hour_of_day};
use fee_estimator::histogram::FeeBuckets;
use fee_estimator::model::{lookup, Activation, Layer, ModelData, Norm};
use fee_estimator::{Error, FeeModel, ModelChoice};

const SUNDAY_NOON: u32 = 1613304000; // 2021-02-14 12:00 UTC
const WEDNESDAY_NOON: u32 = 1613563200; // 2021-02-17 12:00 UTC

fn name(s: &str) -> Vec<u8> {
    s.as_bytes().to_vec()
}

fn all_names() -> Vec<Vec<u8>> {
    let mut v = vec![name("confirms_in"), name("day_of_week"), name("hour"), name("delta_last")];
    for i in 0..16 {
        v.push(name(&format!("b{}", i)));
    }
    v
}

fn model_with(features: Vec<Vec<u8>>) -> ModelData {
    let n = features.len() as u32;
    ModelData {
        input_norm: (0..n).map(|i| Norm { offset: i, scale: 1.0f32.to_bits() }).collect(),
        features,
        layers: vec![
            Layer {
                rows: 2,
                cols: n,
                weights: (0..2 * n).collect(),
                bias: vec![7, 8],
                activation: Activation::Relu,
            },
            Layer {
                rows: 1,
                cols: 2,
                weights: vec![0.5f32.to_bits(), 2.0f32.to_bits()],
                bias: vec![0],
                activation: Activation::Sigmoid,
            },
        ],
        output_norm: Norm { offset: 3, scale: 4 },
    }
}

fn same_model(a: &ModelData, b: &ModelData) -> bool {
    a.features == b.features
        && a.input_norm == b.input_norm
        && a.output_norm == b.output_norm
        && a.layers.len() == b.layers.len()
        && a.layers.iter().zip(b.layers.iter()).all(|(x, y)| {
            x.rows == y.rows
                && x.cols == y.cols
                && x.weights == y.weights
                && x.bias == y.bias
                && x.activation == y.activation
        })
}

#[test]
fn buckets_reject_zero_config() {
    assert_eq!(FeeBuckets::new(0, 500).unwrap_err(), Error::InvalidConfig);
    assert_eq!(FeeBuckets::new(50, 0).unwrap_err(), Error::InvalidConfig);
    assert!(FeeBuckets::new(50, 500).is_ok());
}

#[test]
fn bucket_edges_go_up() {
    let b = FeeBuckets::new(50, 500).unwrap();
    assert_eq!(b.bucket_index(0), 0);
    assert_eq!(b.bucket_index(9), 0);
    assert_eq!(b.bucket_index(10), 1);
    assert_eq!(b.bucket_index(150), 15);
    assert_eq!(b.bucket_index(489), 48);
    assert_eq!(b.bucket_index(490), 49);
    assert_eq!(b.bucket_index(499), 49);
}

#[test]
fn rates_at_or_above_max_land_in_last_bucket() {
    let b = FeeBuckets::new(50, 500).unwrap();
    assert_eq!(b.bucket_index(500), 49);
    assert_eq!(b.bucket_index(501), 49);
    assert_eq!(b.bucket_index(u64::MAX), 49);
}

#[test]
fn bucket_index_with_uneven_width() {
    let b = FeeBuckets::new(3, 10).unwrap();
    assert_eq!(b.bucket_index(3), 0);
    assert_eq!(b.bucket_index(4), 1);
    assert_eq!(b.bucket_index(6), 1);
    assert_eq!(b.bucket_index(7), 2);
    assert_eq!(b.bucket_index(10), 2);
}

#[test]
fn histogram_counts() {
    let b = FeeBuckets::new(50, 500).unwrap();
    let h = b.get(&[1, 5, 10, 11, 499, 500, 10_000, 25]);
    assert_eq!(h.len(), 50);
    assert_eq!(h[0], 2);
    assert_eq!(h[1], 2);
    assert_eq!(h[2], 1);
    assert_eq!(h[49], 3);
    assert_eq!(h.iter().sum::<u64>(), 8);
}

#[test]
fn histogram_of_nothing_is_zero() {
    let b = FeeBuckets::new(50, 500).unwrap();
    let h = b.get(&[]);
    assert_eq!(h, vec![0u64; 50]);
}

#[test]
fn histogram_ignores_order() {
    let b = FeeBuckets::new(50, 500).unwrap();
    assert_eq!(b.get(&[3, 70, 600, 70]), b.get(&[600, 70, 3, 70]));
}

#[test]
fn model_threshold() {
    assert_eq!(choose_model(1), ModelChoice::Low);
    assert_eq!(choose_model(2), ModelChoice::Low);
    assert_eq!(choose_model(3), ModelChoice::High);
    assert_eq!(choose_model(144), ModelChoice::High);
}

#[test]
fn weekday_and_hour_in_utc() {
    assert_eq!(day_of_week(0), 3);
    assert_eq!(hour_of_day(0), 0);
    assert_eq!(day_of_week(SUNDAY_NOON), 6);
    assert_eq!(hour_of_day(SUNDAY_NOON), 12);
    assert_eq!(day_of_week(WEDNESDAY_NOON), 2);
    assert_eq!(hour_of_day(WEDNESDAY_NOON + 3599), 12);
    assert_eq!(hour_of_day(WEDNESDAY_NOON + 3600 * 11 + 3599), 23);
    assert_eq!(day_of_week(WEDNESDAY_NOON + 3600 * 12), 3);
}

#[test]
fn features_of_a_request() {
    let f = request_features(6, SUNDAY_NOON, &[1, 12, 15, 160, 600], SUNDAY_NOON + 20);
    assert_eq!(f.len(), 20);
    assert_eq!(f[0], (name("confirms_in"), 6));
    assert_eq!(f[1], (name("day_of_week"), 6));
    assert_eq!(f[2], (name("hour"), 12));
    assert_eq!(f[3], (name("delta_last"), -20));
    assert_eq!(f[4], (name("b0"), 1));
    assert_eq!(f[5], (name("b1"), 2));
    assert_eq!(f[6], (name("b2"), 0));
    assert_eq!(f[19], (name("b15"), 0));
    assert_eq!(f[14], (name("b10"), 0));
    assert_eq!(HISTOGRAM_BUCKETS, 50);
    assert_eq!(HISTOGRAM_MAX, 500);
}

#[test]
fn features_drop_buckets_past_sixteen() {
    let f = request_features(1, 100, &[159, 160, 499], 40);
    assert_eq!(f[19], (name("b15"), 1));
    assert_eq!(f[3], (name("delta_last"), 60));
    assert!(f.iter().all(|(n, _)| n != &name("b16")));
}

#[test]
fn empty_observations_give_zero_buckets() {
    let f = request_features(2, WEDNESDAY_NOON, &[], WEDNESDAY_NOON - 300);
    assert!(f[4..].iter().all(|(_, v)| *v == 0));
    assert_eq!(f[3].1, 300);
}

#[test]
fn lookup_takes_first_match() {
    let entries = vec![(name("a"), 1), (name("b"), 2), (name("a"), 3)];
    assert_eq!(lookup(&entries, &name("a")), Some(1));
    assert_eq!(lookup(&entries, &name("b")), Some(2));
    assert_eq!(lookup(&entries, &name("c")), None);
}

#[test]
fn gather_in_model_order() {
    let m = model_with(vec![name("hour"), name("b1"), name("confirms_in")]);
    let f = request_features(24, SUNDAY_NOON, &[10, 19], SUNDAY_NOON);
    assert_eq!(m.gather(&f).unwrap(), vec![12, 2, 24]);
}

#[test]
fn gather_missing_feature() {
    let m = model_with(vec![name("hour"), name("mempool_size")]);
    let f = request_features(24, SUNDAY_NOON, &[], SUNDAY_NOON);
    assert_eq!(m.gather(&f).unwrap_err(), Error::MissingFeature);
}

#[test]
fn encode_decode_round_trip() {
    let m = model_with(all_names());
    assert!(m.is_well_formed());
    let bytes = m.encode();
    let back = ModelData::decode(&bytes).unwrap();
    assert!(same_model(&m, &back));
    assert_eq!(back.encode(), bytes);
}

#[test]
fn encoding_layout() {
    let m = ModelData {
        features: vec![name("hour")],
        input_norm: vec![Norm { offset: 1, scale: 2 }],
        layers: vec![Layer { rows: 1, cols: 1, weights: vec![5], bias: vec![6], activation: Activation::Tanh }],
        output_norm: Norm { offset: 0x0403_0201, scale: 9 },
    };
    let words: Vec<u32> = vec![1, 4];
    let mut expected: Vec<u8> = words.iter().flat_map(|w| w.to_le_bytes()).collect();
    expected.extend_from_slice(b"hour");
    for w in [1u32, 2, 1, 1, 1, 2, 5, 6, 0x0403_0201, 9] {
        expected.extend_from_slice(&w.to_le_bytes());
    }
    assert_eq!(m.encode(), expected);
    assert!(same_model(&ModelData::decode(&expected).unwrap(), &m));
}

#[test]
fn decode_rejects_truncated_and_trailing() {
    let bytes = model_with(all_names()).encode();
    assert_eq!(ModelData::decode(&bytes[..bytes.len() - 1]).unwrap_err(), Error::Deserialize);
    assert_eq!(ModelData::decode(&[]).unwrap_err(), Error::Deserialize);
    let mut longer = bytes.clone();
    longer.push(0);
    assert_eq!(ModelData::decode(&longer).unwrap_err(), Error::Deserialize);
}

#[test]
fn decode_rejects_bad_activation_and_shapes() {
    let mut bad_tag = model_with(vec![name("hour")]).encode();
    // The first layer's tag follows the count, the name, its rescaling, the layer
    // count and the layer's rows and columns.
    let at = 4 + 4 + 4 + 8 + 4 + 8;
    bad_tag[at] = 9;
    assert_eq!(ModelData::decode(&bad_tag).unwrap_err(), Error::Deserialize);

    let mut m = model_with(vec![name("hour")]);
    m.layers[1].cols = 3;
    m.layers[1].weights = vec![1, 2, 3];
    assert!(!m.is_well_formed());

    let mut two_outputs = model_with(vec![name("hour")]);
    two_outputs.layers.pop();
    assert!(!two_outputs.is_well_formed());

    let mut wrong_width = model_with(vec![name("hour"), name("b0")]);
    wrong_width.input_norm.pop();
    assert!(!wrong_width.is_well_formed());
}

#[test]
fn fee_model_loads_and_routes() {
    let low = model_with(vec![name("confirms_in"), name("b0")]);
    let high = model_with(vec![name("hour"), name("delta_last"), name("day_of_week")]);
    let f = FeeModel::new(&low.encode(), &high.encode()).unwrap();
    let (c, v) = f.inputs_at(2, WEDNESDAY_NOON, &[3, 4, 40], WEDNESDAY_NOON - 600).unwrap();
    assert_eq!(c, ModelChoice::Low);
    assert_eq!(v, vec![2, 2]);
    let (c, v) = f.inputs_at(3, WEDNESDAY_NOON, &[3, 4, 40], WEDNESDAY_NOON - 600).unwrap();
    assert_eq!(c, ModelChoice::High);
    assert_eq!(v, vec![12, 600, 2]);
}

#[test]
fn fee_model_rejects_bad_bytes() {
    let good = model_with(vec![name("hour")]).encode();
    assert_eq!(FeeModel::new(&good, &[1, 2, 3]).err(), Some(Error::Deserialize));
    assert_eq!(FeeModel::new(&[], &good).err(), Some(Error::Deserialize));
}

#[test]
fn same_arguments_same_inputs() {
    let m = model_with(all_names()).encode();
    let f = FeeModel::new(&m, &m).unwrap();
    let a = f.inputs(6, Some(SUNDAY_NOON), &[1, 2, 300], SUNDAY_NOON - 10).unwrap();
    let b = f.inputs(6, Some(SUNDAY_NOON), &[1, 2, 300], SUNDAY_NOON - 10).unwrap();
    assert_eq!(a, b);
    assert_eq!(a.1[..4].to_vec(), vec![6, 6, 12, 10]);
}

#[test]
fn empty_observations_succeed() {
    let m = model_with(all_names()).encode();
    let f = FeeModel::new(&m, &m).unwrap();
    let (_, v) = f.inputs_at(1, SUNDAY_NOON, &[], SUNDAY_NOON).unwrap();
    assert_eq!(v.len(), 20);
    assert!(v[4..].iter().all(|x| *x == 0));
}

#[test]
fn inputs_without_time_read_the_clock() {
    let m = model_with(vec![name("confirms_in"), name("hour")]).encode();
    let f = FeeModel::new(&m, &m).unwrap();
    let (c, v) = f.inputs(144, None, &[], 0).unwrap();
    assert_eq!(c, ModelChoice::High);
    assert_eq!(v[0], 144);
    assert!(v[1] < 24);
}

#[test]
fn round_trip_through_codec_module() {
    let m = model_with(all_names());
    let again = ModelData::decode(&ModelData::decode(&m.encode()).unwrap().encode()).unwrap();
    assert!(same_model(&m, &again));
}

#[test]
fn clock_reading_out_of_range() {
    let m = model_with(vec![name("confirms_in"), name("hour")]).encode();
    let f = FeeModel::new(&m, &m).unwrap();
    assert_eq!(f.inputs_at_clock(1, -1, &[], 0).unwrap_err(), Error::ClockOutOfRange);
    assert_eq!(f.inputs_at_clock(1, 1i64 << 32, &[], 0).unwrap_err(), Error::ClockOutOfRange);
    assert!(f.inputs_at_clock(1, u32::MAX as i64, &[], 0).is_ok());
    assert_eq!(
        f.inputs_at_clock(6, SUNDAY_NOON as i64, &[5], 0).unwrap(),
        f.inputs_at(6, SUNDAY_NOON, &[5], 0).unwrap()
    );
    assert_eq!(f.inputs_at_clock(6, SUNDAY_NOON as i64, &[5], 0).unwrap().1, vec![6, 12]);
}
