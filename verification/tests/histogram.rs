use compvec::histogram::{
    decode_histogram, encode_geometric, encode_xor_doubles, HistogramFormat,
};
use compvec::CodecError;

const TWO: u64 = 0x4000000000000000; // 2.0 as an IEEE 754 double pattern
const ONE: u64 = 0x3FF0000000000000; // 1.0
const HALF: u64 = 0x3FE0000000000000; // 0.5
const NAN: u64 = 0x7FF8000000000001;

#[test]
fn geometric_increasing_round_trip() {
    let values: Vec<u64> = vec![1, 3, 7, 20, 21, 100, 5000];
    let mut frame: Vec<u8> = Vec::new();
    encode_geometric(values.len(), TWO, TWO, HistogramFormat::GeometricIncreasing, &values,
        &mut frame)
        .expect("encode");
    let d = decode_histogram(&frame).expect("decode");
    assert_eq!(d.format, HistogramFormat::GeometricIncreasing);
    assert_eq!(d.num_buckets, values.len());
    assert_eq!(d.initial_bits, TWO);
    assert_eq!(d.multiplier_bits, TWO);
    assert_eq!(d.counts, values);
}

#[test]
fn geometric_nonincreasing_round_trip() {
    let values: Vec<u64> = vec![5000, 100, 21, 20, 7, 3, 1];
    let mut frame: Vec<u8> = Vec::new();
    encode_geometric(values.len(), TWO, TWO, HistogramFormat::GeometricNonIncreasing, &values,
        &mut frame)
        .expect("encode");
    let d = decode_histogram(&frame).expect("decode");
    assert_eq!(d.format, HistogramFormat::GeometricNonIncreasing);
    assert_eq!(d.counts, values);
}

#[test]
fn geometric_round_trip_with_real_parameters() {
    let values: Vec<u64> = vec![0, 0, 4, 9, 9, 9];
    let initial = 0.001f64.to_bits();
    let multiplier = 1.5f64.to_bits();
    let mut frame: Vec<u8> = Vec::new();
    encode_geometric(values.len(), initial, multiplier, HistogramFormat::GeometricIncreasing,
        &values, &mut frame)
        .expect("encode");
    let d = decode_histogram(&frame).expect("decode");
    assert_eq!(f64::from_bits(d.initial_bits), 0.001);
    assert_eq!(f64::from_bits(d.multiplier_bits), 1.5);
    assert_eq!(d.counts, values);
}

#[test]
fn validation_rejects_multiplier_not_above_one() {
    let values: Vec<u64> = vec![1, 2];
    let mut frame: Vec<u8> = Vec::new();
    let r = encode_geometric(2, TWO, ONE, HistogramFormat::GeometricIncreasing, &values,
        &mut frame);
    assert_eq!(r, Err(CodecError::ValidationError));
    let r2 = encode_geometric(2, TWO, HALF, HistogramFormat::GeometricIncreasing, &values,
        &mut frame);
    assert_eq!(r2, Err(CodecError::ValidationError));
    assert!(frame.is_empty());
}

#[test]
fn validation_rejects_nonpositive_initial() {
    let values: Vec<u64> = vec![1, 2];
    let mut frame: Vec<u8> = Vec::new();
    let zero = 0.0f64.to_bits();
    let neg = (-1.0f64).to_bits();
    let r = encode_geometric(2, zero, TWO, HistogramFormat::GeometricIncreasing, &values,
        &mut frame);
    assert_eq!(r, Err(CodecError::ValidationError));
    let r2 = encode_geometric(2, neg, TWO, HistogramFormat::GeometricIncreasing, &values,
        &mut frame);
    assert_eq!(r2, Err(CodecError::ValidationError));
}

#[test]
fn validation_rejects_nan_parameters() {
    let values: Vec<u64> = vec![1, 2];
    let mut frame: Vec<u8> = Vec::new();
    assert!(f64::from_bits(NAN).is_nan());
    let r = encode_geometric(2, TWO, NAN, HistogramFormat::GeometricIncreasing, &values,
        &mut frame);
    assert_eq!(r, Err(CodecError::ValidationError));
    let r2 = encode_geometric(2, NAN, TWO, HistogramFormat::GeometricIncreasing, &values,
        &mut frame);
    assert_eq!(r2, Err(CodecError::ValidationError));
}

#[test]
fn validation_rejects_count_mismatch() {
    let values: Vec<u64> = vec![1, 2, 3];
    let mut frame: Vec<u8> = Vec::new();
    let r = encode_geometric(2, TWO, TWO, HistogramFormat::GeometricIncreasing, &values,
        &mut frame);
    assert_eq!(r, Err(CodecError::ValidationError));
}

#[test]
fn unimplemented_formats_are_unsupported() {
    let values: Vec<u64> = vec![1, 2];
    let mut frame: Vec<u8> = Vec::new();
    let r = encode_geometric(2, TWO, TWO, HistogramFormat::ExplicitBuckets, &values, &mut frame);
    assert_eq!(r, Err(CodecError::Unsupported));
    let r2 = encode_geometric(2, TWO, TWO, HistogramFormat::XorDoubleBuckets, &values, &mut frame);
    assert_eq!(r2, Err(CodecError::Unsupported));
    assert!(frame.is_empty());
}

#[test]
fn unknown_format_code_is_unsupported() {
    let frame: Vec<u8> = vec![9, 1, 0, 0, 0, 0, 0];
    assert_eq!(decode_histogram(&frame), Err(CodecError::Unsupported));
    let explicit: Vec<u8> = vec![3, 1, 0, 0, 0, 0, 0];
    assert_eq!(decode_histogram(&explicit), Err(CodecError::Unsupported));
}

#[test]
fn truncated_frame_is_reported() {
    let values: Vec<u64> = vec![1, 2, 3];
    let mut frame: Vec<u8> = Vec::new();
    encode_geometric(3, TWO, TWO, HistogramFormat::GeometricIncreasing, &values, &mut frame)
        .expect("encode");
    let short: Vec<u8> = frame[..2].to_vec();
    assert_eq!(decode_histogram(&short), Err(CodecError::TruncatedInput));
    let header_only: Vec<u8> = frame[..10].to_vec();
    assert_eq!(decode_histogram(&header_only), Err(CodecError::TruncatedInput));
    let cut_stream: Vec<u8> = frame[..frame.len() - 1].to_vec();
    assert_eq!(decode_histogram(&cut_stream), Err(CodecError::TruncatedInput));
}

#[test]
fn tampered_count_is_inconsistent() {
    let values: Vec<u64> = vec![1, 2, 3];
    let mut frame: Vec<u8> = Vec::new();
    encode_geometric(3, TWO, TWO, HistogramFormat::GeometricIncreasing, &values, &mut frame)
        .expect("encode");
    frame[1] = 4; // declare four buckets while the stream holds three
    assert_eq!(decode_histogram(&frame), Err(CodecError::InconsistentLength));
}

#[test]
fn xor_double_round_trip() {
    let doubles = [1.5f64, 2.25, -3.0, 0.0, 1e300];
    let patterns: Vec<u64> = doubles.iter().map(|d| d.to_bits()).collect();
    let mut frame: Vec<u8> = Vec::new();
    encode_xor_doubles(patterns.len(), &patterns, &mut frame).expect("encode");
    let d = decode_histogram(&frame).expect("decode");
    assert_eq!(d.format, HistogramFormat::XorDoubleBuckets);
    assert_eq!(d.num_buckets, 5);
    assert_eq!(d.counts, patterns);
    let recovered: Vec<f64> = d.counts.iter().map(|&p| f64::from_bits(p)).collect();
    assert_eq!(recovered, doubles);
}

#[test]
fn empty_histogram_round_trip() {
    let values: Vec<u64> = Vec::new();
    let mut frame: Vec<u8> = Vec::new();
    encode_geometric(0, TWO, TWO, HistogramFormat::GeometricIncreasing, &values, &mut frame)
        .expect("encode");
    let d = decode_histogram(&frame).expect("decode");
    assert_eq!(d.num_buckets, 0);
    assert!(d.counts.is_empty());
}
