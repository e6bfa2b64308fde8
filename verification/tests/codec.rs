use compvec::byteutils::{bit_width, read_nibbles, write_nibbles, zigzag_decode, zigzag_encode};
use compvec::nibblepacking::{pack, pack_group, unpack, unpack_raw};
use compvec::sink::{DeltaSink, RawSink, Sink, XorDoubleSink};
use compvec::CodecError;

fn lcg_values(n: usize, seed: u64) -> Vec<u64> {
    let mut vals = Vec::new();
    let mut x = seed;
    for _ in 0..n {
        x = x.wrapping_mul(6364136223846793005).wrapping_add(1442695040888963407);
        vals.push(x);
    }
    vals
}

fn deltas_of(vals: &[u64]) -> Vec<u64> {
    let mut out = Vec::new();
    let mut prev = 0u64;
    for &v in vals {
        out.push(v.wrapping_sub(prev));
        prev = v;
    }
    out
}

#[test]
fn bit_width_exact_values() {
    assert_eq!(bit_width(0), 0);
    assert_eq!(bit_width(1), 4);
    assert_eq!(bit_width(5), 4);
    assert_eq!(bit_width(15), 4);
    assert_eq!(bit_width(16), 8);
    assert_eq!(bit_width(255), 8);
    assert_eq!(bit_width(256), 12);
    assert_eq!(bit_width(u64::MAX), 64);
}

#[test]
fn zigzag_small_values() {
    assert_eq!(zigzag_encode(0), 0);
    assert_eq!(zigzag_encode(-1), 1);
    assert_eq!(zigzag_encode(1), 2);
    assert_eq!(zigzag_encode(-2), 3);
    assert_eq!(zigzag_encode(2), 4);
}

#[test]
fn zigzag_round_trip_extremes() {
    for n in [0i64, 1, -1, 17, -17, i64::MAX, i64::MIN, i64::MIN + 1] {
        assert_eq!(zigzag_decode(zigzag_encode(n)), n);
    }
    for u in [0u64, 1, 2, 3, u64::MAX, u64::MAX - 1] {
        assert_eq!(zigzag_encode(zigzag_decode(u)), u);
    }
}

#[test]
fn nibble_write_read_round_trip() {
    let mut buf: Vec<u8> = vec![0; 8];
    assert!(write_nibbles(&mut buf, 0xABC, 3, 5).is_ok());
    assert_eq!(read_nibbles(&buf, 3, 5), Ok(0xABC));
    // Neighbouring nibbles keep their contents.
    assert!(write_nibbles(&mut buf, 0x5, 1, 4).is_ok());
    assert_eq!(read_nibbles(&buf, 3, 5), Ok(0xABC));
    assert_eq!(read_nibbles(&buf, 1, 4), Ok(0x5));
}

#[test]
fn nibble_write_out_of_bounds() {
    let mut buf: Vec<u8> = vec![0; 2];
    let before = buf.clone();
    assert_eq!(write_nibbles(&mut buf, 0x123, 3, 2), Err(CodecError::TruncatedInput));
    assert_eq!(buf, before);
    assert_eq!(read_nibbles(&buf, 3, 2), Err(CodecError::TruncatedInput));
}

#[test]
fn all_zero_group_is_two_bytes() {
    let group: Vec<u64> = vec![0; 8];
    let mut out: Vec<u8> = Vec::new();
    pack_group(&group, &mut out);
    assert_eq!(out, vec![0u8, 0u8]);
}

#[test]
fn single_nibble_group_layout() {
    // Eight values with one nonzero 5 in the last slot: control byte for
    // one nibble of width, one mask bit for the last slot, one payload
    // nibble holding 5.
    let group: Vec<u64> = vec![0, 0, 0, 0, 0, 0, 0, 5];
    let mut out: Vec<u8> = Vec::new();
    pack_group(&group, &mut out);
    assert_eq!(out, vec![1u8, 0x80u8, 0x05u8]);
}

#[test]
fn stream_of_zero_group_is_header_plus_two() {
    let values: Vec<u64> = vec![0; 8];
    let mut out: Vec<u8> = Vec::new();
    pack(&values, &mut out);
    assert_eq!(out, vec![8u8, 0, 0, 0, 0u8, 0u8]);
}

#[test]
fn delta_round_trip_long() {
    for n in [0usize, 1, 7, 8, 9, 100, 10000] {
        let original = lcg_values(n, 42);
        let deltas = deltas_of(&original);
        let mut encoded: Vec<u8> = Vec::new();
        pack(&deltas, &mut encoded);
        let mut sink = DeltaSink::new();
        let consumed = unpack(&encoded, &mut sink).expect("decode");
        assert_eq!(consumed, encoded.len());
        assert_eq!(sink.values().as_slice(), original.as_slice());
    }
}

#[test]
fn raw_round_trip_small_values() {
    let values: Vec<u64> = vec![1, 2, 3, 0, 0, 15, 16, 255, 65535, 0];
    let mut encoded: Vec<u8> = Vec::new();
    pack(&values, &mut encoded);
    let mut sink = RawSink::new();
    let consumed = unpack(&encoded, &mut sink).expect("decode");
    assert_eq!(consumed, encoded.len());
    assert_eq!(sink.values().as_slice(), values.as_slice());
}

#[test]
fn unpack_raw_returns_declared_values() {
    let values: Vec<u64> = vec![10, 20, 30];
    let mut encoded: Vec<u8> = Vec::new();
    pack(&values, &mut encoded);
    let mut out: Vec<u64> = Vec::new();
    let consumed = unpack_raw(&encoded, 0, &mut out).expect("decode");
    assert_eq!(consumed, encoded.len());
    assert_eq!(out, values);
}

#[test]
fn truncation_reports_error_and_no_output() {
    let original = lcg_values(50, 7);
    let deltas = deltas_of(&original);
    let mut encoded: Vec<u8> = Vec::new();
    pack(&deltas, &mut encoded);
    for t in 0..encoded.len() {
        let cut: Vec<u8> = encoded[..t].to_vec();
        let mut sink = DeltaSink::new();
        let r = unpack(&cut, &mut sink);
        if t == 4 {
            assert_eq!(r, Err(CodecError::InconsistentLength));
        } else {
            assert_eq!(r, Err(CodecError::TruncatedInput));
        }
        // No partial output escapes a failed decode.
        assert!(sink.values().is_empty());
    }
}

#[test]
fn zero_count_with_trailing_bytes_is_inconsistent() {
    let encoded: Vec<u8> = vec![0, 0, 0, 0, 9];
    let mut out: Vec<u64> = Vec::new();
    assert_eq!(unpack_raw(&encoded, 0, &mut out), Err(CodecError::InconsistentLength));
    assert!(out.is_empty());
}

#[test]
fn empty_stream_round_trip() {
    let values: Vec<u64> = Vec::new();
    let mut encoded: Vec<u8> = Vec::new();
    pack(&values, &mut encoded);
    assert_eq!(encoded, vec![0u8, 0, 0, 0]);
    let mut out: Vec<u64> = Vec::new();
    assert_eq!(unpack_raw(&encoded, 0, &mut out), Ok(4));
    assert!(out.is_empty());
}

#[test]
fn oversized_control_byte_is_unsupported() {
    let encoded: Vec<u8> = vec![1, 0, 0, 0, 17, 0];
    let mut out: Vec<u64> = Vec::new();
    assert_eq!(unpack_raw(&encoded, 0, &mut out), Err(CodecError::Unsupported));
    assert!(out.is_empty());
}

#[test]
fn delta_sink_reuse_after_reset() {
    let first = vec![5u64, 5, 5];
    let second = vec![1u64, 2, 3];
    let mut enc1: Vec<u8> = Vec::new();
    pack(&first, &mut enc1);
    let mut enc2: Vec<u8> = Vec::new();
    pack(&second, &mut enc2);
    let mut sink = DeltaSink::new();
    unpack(&enc1, &mut sink).expect("first decode");
    assert_eq!(sink.values().as_slice(), &[5, 10, 15]);
    sink.reset();
    unpack(&enc2, &mut sink).expect("second decode");
    assert_eq!(sink.values().as_slice(), &[1, 3, 6]);
}

#[test]
fn delta_sink_with_explicit_base() {
    let deltas = vec![1u64, 1, 1];
    let mut encoded: Vec<u8> = Vec::new();
    pack(&deltas, &mut encoded);
    let mut sink = DeltaSink::with_base(100);
    unpack(&encoded, &mut sink).expect("decode");
    assert_eq!(sink.values().as_slice(), &[101, 102, 103]);
}

#[test]
fn xor_sink_reconstructs_patterns() {
    let a = 1.5f64.to_bits();
    let b = 2.25f64.to_bits();
    let c = (-0.5f64).to_bits();
    let mut sink = XorDoubleSink::new();
    sink.process(a);
    sink.process(a ^ b);
    sink.process(b ^ c);
    assert_eq!(sink.values().as_slice(), &[a, b, c]);
}

#[test]
fn wide_values_round_trip() {
    // One value of each nibble width, zeros in between.
    let mut values: Vec<u64> = Vec::new();
    let mut v: u64 = 0xF;
    for _ in 0..16 {
        values.push(v);
        values.push(0);
        v = (v << 4) | 0xF;
    }
    let mut encoded: Vec<u8> = Vec::new();
    pack(&values, &mut encoded);
    let mut sink = RawSink::new();
    unpack(&encoded, &mut sink).expect("decode");
    assert_eq!(sink.values().as_slice(), values.as_slice());
}
