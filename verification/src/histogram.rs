//! Histogram frames: a format code, a bucket count, the geometric bucket
//! parameters when applicable, and an embedded block-codec stream of the
//! bucket counts, delta-encoded. A non-increasing sequence is reversed
//! before delta encoding so its deltas stay small; the format code records
//! the transform so decoding can invert it exactly.
//!
//! The two geometric parameters are carried as IEEE 754 double bit
//! patterns held in `u64`. For positive doubles the bit-pattern order
//! equals the numeric order, so validation is integer arithmetic here.

use vstd::prelude::*;
use vstd::arithmetic::div_mod::*;
use crate::nibblepacking::{
    stream_bytes, spec_unpack_stream, pack, lemma_stream_parse, unpack_raw,
};
use crate::sink::{
    Sink, sink_outs, basis_after, feed_all, wrap_deltas, DeltaSink, XorDoubleSink, xor_deltas,
    lemma_delta_sink_reconstructs, lemma_xor_sink_reconstructs, wrap_sub, lemma_sink_outs_len,
};
use crate::CodecError;

verus! {

/// How a frame's decoded value sequence must be transformed to recover
/// the original bucket counts.
#[derive(Clone, Copy, Debug, PartialEq, Eq, Structural)]
pub enum HistogramFormat {
    /// Geometric buckets, counts stored in given order.
    GeometricIncreasing,
    /// Geometric buckets, a non-increasing count sequence stored reversed.
    GeometricNonIncreasing,
    /// Explicit bucket boundaries; not carried by a minimal build.
    ExplicitBuckets,
    /// Double bit patterns stored as successive XOR differences.
    XorDoubleBuckets,
}

/// The wire byte of each format.
pub open spec fn format_code(f: HistogramFormat) -> u8 {
    match f {
        HistogramFormat::GeometricIncreasing => 1u8,
        HistogramFormat::GeometricNonIncreasing => 2u8,
        HistogramFormat::ExplicitBuckets => 3u8,
        HistogramFormat::XorDoubleBuckets => 4u8,
    }
}

/// `s` reversed.
pub open spec fn rev(s: Seq<u64>) -> Seq<u64> {
    Seq::new(s.len(), |i: int| s[s.len() - 1 - i])
}

/// Sign bit clear and exponent not all ones with a nonzero mantissa:
/// the patterns of non-negative, non-NaN doubles.
pub open spec fn f64_bits_is_nan(b: u64) -> bool {
    (b as nat / 0x10000000000000) % 0x800 == 0x7FF && b as nat % 0x10000000000000 != 0
}

/// The pattern of a double strictly above zero: sign clear, not NaN, and
/// above the pattern of `0.0`.
pub open spec fn f64_bits_pos(b: u64) -> bool {
    b < 0x8000000000000000 && !f64_bits_is_nan(b) && b > 0
}

/// The pattern of a double strictly above one: sign clear, not NaN, and
/// above the pattern of `1.0`.
pub open spec fn f64_bits_gt_one(b: u64) -> bool {
    b < 0x8000000000000000 && !f64_bits_is_nan(b) && b > 0x3FF0000000000000
}

/// Two little-endian bytes.
pub open spec fn u16le_bytes(n: nat) -> Seq<u8> {
    seq![(n % 256) as u8, ((n / 256) % 256) as u8]
}

/// Eight little-endian bytes of a pattern.
pub open spec fn u64le_bytes(v: u64) -> Seq<u8> {
    seq![
        (v as nat % 256) as u8,
        ((v as nat / 0x100) % 256) as u8,
        ((v as nat / 0x10000) % 256) as u8,
        ((v as nat / 0x1000000) % 256) as u8,
        ((v as nat / 0x100000000) % 256) as u8,
        ((v as nat / 0x10000000000) % 256) as u8,
        ((v as nat / 0x1000000000000) % 256) as u8,
        ((v as nat / 0x100000000000000) % 256) as u8,
    ]
}

pub open spec fn read_u16le(bytes: Seq<u8>, pos: int) -> nat {
    (bytes[pos] + 256 * bytes[pos + 1]) as nat
}

pub open spec fn read_u64le(bytes: Seq<u8>, pos: int) -> nat {
    (bytes[pos] + 0x100 * bytes[pos + 1] + 0x10000 * bytes[pos + 2] + 0x1000000 * bytes[pos + 3]
        + 0x100000000 * bytes[pos + 4] + 0x10000000000 * bytes[pos + 5] + 0x1000000000000
        * bytes[pos + 6] + 0x100000000000000 * bytes[pos + 7]) as nat
}

/// The counts as a geometric frame stores them: reversed first when the
/// format says so.
pub open spec fn stored_order(f: HistogramFormat, values: Seq<u64>) -> Seq<u64> {
    if f == HistogramFormat::GeometricNonIncreasing {
        rev(values)
    } else {
        values
    }
}

/// The wire form of a geometric frame.
pub open spec fn geom_frame_bytes(
    f: HistogramFormat,
    initial_bits: u64,
    multiplier_bits: u64,
    values: Seq<u64>,
) -> Seq<u8> {
    seq![format_code(f)] + u16le_bytes(values.len()) + u64le_bytes(initial_bits) + u64le_bytes(
        multiplier_bits,
    ) + stream_bytes(wrap_deltas(stored_order(f, values)))
}

/// The wire form of an XOR-double frame.
pub open spec fn xor_frame_bytes(values: Seq<u64>) -> Seq<u8> {
    seq![format_code(HistogramFormat::XorDoubleBuckets)] + u16le_bytes(values.len())
        + stream_bytes(xor_deltas(values))
}

/// Everything a decoded frame carries. The two parameter fields are zero
/// for formats that do not carry them.
#[derive(Debug, PartialEq, Eq)]
pub struct DecodedHistogram {
    /// The frame's format.
    pub format: HistogramFormat,
    /// The declared bucket count.
    pub num_buckets: usize,
    /// Bit pattern of the first bucket boundary, for geometric formats.
    pub initial_bits: u64,
    /// Bit pattern of the bucket multiplier, for geometric formats.
    pub multiplier_bits: u64,
    /// The recovered bucket counts, in their original order.
    pub counts: Vec<u64>,
}

/// What a frame decodes to: format, declared count, parameter patterns,
/// and the counts in original order.
pub open spec fn spec_decode_histogram(bytes: Seq<u8>) -> Result<
    (HistogramFormat, nat, u64, u64, Seq<u64>),
    CodecError,
> {
    if bytes.len() < 3 {
        Err(CodecError::TruncatedInput)
    } else {
        let code = bytes[0];
        let count = read_u16le(bytes, 1);
        if code == 1 || code == 2 {
            let f = if code == 1 {
                HistogramFormat::GeometricIncreasing
            } else {
                HistogramFormat::GeometricNonIncreasing
            };
            if bytes.len() < 19 {
                Err(CodecError::TruncatedInput)
            } else {
                let initial = read_u64le(bytes, 3);
                let mult = read_u64le(bytes, 11);
                match spec_unpack_stream(bytes, 19) {
                    Err(e) => Err(e),
                    Ok(p) => if p.0.len() != count || p.1 != bytes.len() {
                        Err(CodecError::InconsistentLength)
                    } else {
                        let abs = sink_outs::<DeltaSink>(0u64, p.0);
                        let counts = if f == HistogramFormat::GeometricNonIncreasing {
                            rev(abs)
                        } else {
                            abs
                        };
                        Ok((f, count, initial as u64, mult as u64, counts))
                    },
                }
            }
        } else if code == 4 {
            match spec_unpack_stream(bytes, 3) {
                Err(e) => Err(e),
                Ok(p) => if p.0.len() != count || p.1 != bytes.len() {
                    Err(CodecError::InconsistentLength)
                } else {
                    Ok(
                        (
                            HistogramFormat::XorDoubleBuckets,
                            count,
                            0u64,
                            0u64,
                            sink_outs::<XorDoubleSink>(0u64, p.0),
                        ),
                    )
                },
            }
        } else {
            Err(CodecError::Unsupported)
        }
    }
}

/// Whether a geometric frame's parameters pass validation.
pub open spec fn geom_params_valid(
    num_buckets: int,
    values_len: int,
    initial_bits: u64,
    multiplier_bits: u64,
) -> bool {
    num_buckets == values_len && num_buckets <= 65535 && f64_bits_pos(initial_bits)
        && f64_bits_gt_one(multiplier_bits)
}

/// Append the two little-endian bytes of a count below `65536`.
fn push_u16_le(out: &mut Vec<u8>, n: usize)
    requires
        n <= 65535,
    ensures
        final(out)@ == old(out)@ + u16le_bytes(n as nat),
{
    out.push((n % 256) as u8);
    out.push(((n / 256) % 256) as u8);
    proof {
        assert(out@ =~= old(out)@ + u16le_bytes(n as nat));
    }
}

/// Append the eight little-endian bytes of a pattern.
fn push_u64_le(out: &mut Vec<u8>, v: u64)
    ensures
        final(out)@ == old(out)@ + u64le_bytes(v),
{
    out.push((v % 256) as u8);
    out.push(((v / 0x100) % 256) as u8);
    out.push(((v / 0x10000) % 256) as u8);
    out.push(((v / 0x1000000) % 256) as u8);
    out.push(((v / 0x100000000) % 256) as u8);
    out.push(((v / 0x10000000000) % 256) as u8);
    out.push(((v / 0x1000000000000) % 256) as u8);
    out.push(((v / 0x100000000000000) % 256) as u8);
    proof {
        assert(out@ =~= old(out)@ + u64le_bytes(v));
    }
}

/// Copy `values` reversed.
fn reversed(values: &Vec<u64>) -> (r: Vec<u64>)
    ensures
        r@ == rev(values@),
{
    let mut r: Vec<u64> = Vec::new();
    let mut i: usize = values.len();
    while i > 0
        invariant
            i <= values@.len(),
            r@ =~= rev(values@).take((values@.len() - i) as int),
        decreases i,
    {
        i = i - 1;
        proof {
            assert(rev(values@).take((values@.len() - i) as int) =~= rev(values@).take(
                (values@.len() - i - 1) as int,
            ).push(values@[i as int]));
        }
        r.push(values[i]);
    }
    proof {
        assert(rev(values@).take(values@.len() as int) =~= rev(values@));
    }
    r
}

/// The wrapping delta stream of `values`, the first delta taken from zero.
fn deltas_of(values: &Vec<u64>) -> (r: Vec<u64>)
    ensures
        r@ == wrap_deltas(values@),
{
    let mut r: Vec<u64> = Vec::new();
    let mut prev: u64 = 0;
    let mut i: usize = 0;
    while i < values.len()
        invariant
            i <= values@.len(),
            r@ =~= wrap_deltas(values@).take(i as int),
            prev == if i == 0 {
                0u64
            } else {
                values@[i - 1]
            },
        decreases values@.len() - i,
    {
        proof {
            assert(wrap_deltas(values@).take(i + 1) =~= wrap_deltas(values@).take(i as int).push(
                wrap_deltas(values@)[i as int],
            ));
            assert(wrap_sub(values@[i as int], 0u64) == values@[i as int]);
        }
        r.push(values[i].wrapping_sub(prev));
        prev = values[i];
        i = i + 1;
    }
    proof {
        assert(wrap_deltas(values@).take(values@.len() as int) =~= wrap_deltas(values@));
    }
    r
}

/// Encode a geometric histogram frame: validate the parameters, reverse
/// a non-increasing sequence so its deltas compress, delta-encode, and
/// append the frame. Formats this build does not encode are refused as
/// unsupported; bad parameters are a validation error.
pub fn encode_geometric(
    num_buckets: usize,
    initial_bits: u64,
    multiplier_bits: u64,
    format: HistogramFormat,
    values: &Vec<u64>,
    out: &mut Vec<u8>,
) -> (r: Result<(), CodecError>)
    ensures
        r == Ok::<(), CodecError>(()) <==> ((format == HistogramFormat::GeometricIncreasing
            || format == HistogramFormat::GeometricNonIncreasing) && geom_params_valid(
            num_buckets as int,
            values@.len() as int,
            initial_bits,
            multiplier_bits,
        )),
        r == Ok::<(), CodecError>(()) ==> final(out)@ == old(out)@ + geom_frame_bytes(
            format,
            initial_bits,
            multiplier_bits,
            values@,
        ),
        (format == HistogramFormat::ExplicitBuckets || format == HistogramFormat::XorDoubleBuckets)
            ==> r == Err::<(), CodecError>(CodecError::Unsupported),
        r is Err ==> final(out)@ == old(out)@,
        r is Err ==> (r == Err::<(), CodecError>(CodecError::Unsupported) || r == Err::<
            (),
            CodecError,
        >(CodecError::ValidationError)),
{
    match format {
        HistogramFormat::ExplicitBuckets => {
            return Err(CodecError::Unsupported);
        },
        HistogramFormat::XorDoubleBuckets => {
            return Err(CodecError::Unsupported);
        },
        _ => {},
    }
    if num_buckets != values.len() || num_buckets > 65535 {
        return Err(CodecError::ValidationError);
    }
    if !(initial_bits < 0x8000000000000000 && initial_bits > 0 && !bits_nan(initial_bits)) {
        return Err(CodecError::ValidationError);
    }
    if !(multiplier_bits < 0x8000000000000000 && multiplier_bits > 0x3FF0000000000000 && !bits_nan(
        multiplier_bits,
    )) {
        return Err(CodecError::ValidationError);
    }
    let code: u8 = match format {
        HistogramFormat::GeometricIncreasing => 1,
        _ => 2,
    };
    out.push(code);
    push_u16_le(out, num_buckets);
    push_u64_le(out, initial_bits);
    push_u64_le(out, multiplier_bits);
    let deltas: Vec<u64> = match format {
        HistogramFormat::GeometricIncreasing => deltas_of(values),
        _ => {
            let r = reversed(values);
            deltas_of(&r)
        },
    };
    pack(&deltas, out);
    proof {
        assert(out@ =~= old(out)@ + geom_frame_bytes(
            format,
            initial_bits,
            multiplier_bits,
            values@,
        ));
    }
    Ok(())
}

/// Whether `b` is the pattern of an IEEE 754 NaN: exponent all ones and
/// a nonzero mantissa.
fn bits_nan(b: u64) -> (r: bool)
    ensures
        r == f64_bits_is_nan(b),
{
    (b / 0x10000000000000) % 0x800 == 0x7FF && b % 0x10000000000000 != 0
}

/// Encode an XOR-double frame: the patterns stored as successive XOR
/// differences, the first against zero.
pub fn encode_xor_doubles(num_buckets: usize, values: &Vec<u64>, out: &mut Vec<u8>) -> (r: Result<
    (),
    CodecError,
>)
    ensures
        r == Ok::<(), CodecError>(()) <==> (num_buckets == values@.len() && num_buckets <= 65535),
        r == Ok::<(), CodecError>(()) ==> final(out)@ == old(out)@ + xor_frame_bytes(values@),
        r is Err ==> final(out)@ == old(out)@ && r == Err::<(), CodecError>(
            CodecError::ValidationError,
        ),
{
    if num_buckets != values.len() || num_buckets > 65535 {
        return Err(CodecError::ValidationError);
    }
    out.push(4u8);
    push_u16_le(out, num_buckets);
    let mut deltas: Vec<u64> = Vec::new();
    let mut prev: u64 = 0;
    let mut i: usize = 0;
    while i < values.len()
        invariant
            i <= values@.len(),
            deltas@ =~= xor_deltas(values@).take(i as int),
            prev == if i == 0 {
                0u64
            } else {
                values@[i - 1]
            },
        decreases values@.len() - i,
    {
        proof {
            assert(xor_deltas(values@).take(i + 1) =~= xor_deltas(values@).take(i as int).push(
                xor_deltas(values@)[i as int],
            ));
            let v = values@[i as int];
            assert(0u64 ^ v == v) by (bit_vector);
        }
        deltas.push(prev ^ values[i]);
        prev = values[i];
        i = i + 1;
    }
    proof {
        assert(xor_deltas(values@).take(values@.len() as int) =~= xor_deltas(values@));
    }
    pack(&deltas, out);
    proof {
        assert(out@ =~= old(out)@ + xor_frame_bytes(values@));
    }
    Ok(())
}

/// Decode a histogram frame: read the header, decode the embedded stream
/// through the sink the format calls for, and invert the recorded
/// transform to recover the original bucket counts.
pub fn decode_histogram(bytes: &Vec<u8>) -> (r: Result<DecodedHistogram, CodecError>)
    requires
        bytes@.len() < usize::MAX / 2,
    ensures
        match r {
            Ok(d) => spec_decode_histogram(bytes@) == Ok::<
                (HistogramFormat, nat, u64, u64, Seq<u64>),
                CodecError,
            >((d.format, d.num_buckets as nat, d.initial_bits, d.multiplier_bits, d.counts@)),
            Err(e) => spec_decode_histogram(bytes@) == Err::<
                (HistogramFormat, nat, u64, u64, Seq<u64>),
                CodecError,
            >(e),
        },
{
    if bytes.len() < 3 {
        return Err(CodecError::TruncatedInput);
    }
    let code: u8 = bytes[0];
    let count: usize = bytes[1] as usize + 256 * bytes[2] as usize;
    if code == 1 || code == 2 {
        let format = if code == 1 {
            HistogramFormat::GeometricIncreasing
        } else {
            HistogramFormat::GeometricNonIncreasing
        };
        if bytes.len() < 19 {
            return Err(CodecError::TruncatedInput);
        }
        let initial_bits: u64 = read_u64_at(bytes, 3);
        let multiplier_bits: u64 = read_u64_at(bytes, 11);
        let mut sink = DeltaSink::new();
        let consumed = match unpack_at(bytes, 19, &mut sink) {
            Ok(c) => c,
            Err(e) => {
                return Err(e);
            },
        };
        proof {
            if let Ok(p) = spec_unpack_stream(bytes@, 19) {
                assert(Seq::<u64>::empty() + sink_outs::<DeltaSink>(0u64, p.0)
                    =~= sink_outs::<DeltaSink>(0u64, p.0));
                lemma_sink_outs_len::<DeltaSink>(0u64, p.0);
            }
        }
        let vals = sink.values();
        if vals.len() != count || consumed != bytes.len() {
            return Err(CodecError::InconsistentLength);
        }
        let counts: Vec<u64> = if code == 2 {
            reversed(vals)
        } else {
            copied(vals)
        };
        Ok(
            DecodedHistogram {
                format,
                num_buckets: count,
                initial_bits,
                multiplier_bits,
                counts,
            },
        )
    } else if code == 4 {
        let mut sink = XorDoubleSink::new();
        let consumed = match unpack_at(bytes, 3, &mut sink) {
            Ok(c) => c,
            Err(e) => {
                return Err(e);
            },
        };
        proof {
            if let Ok(p) = spec_unpack_stream(bytes@, 3) {
                assert(Seq::<u64>::empty() + sink_outs::<XorDoubleSink>(0u64, p.0)
                    =~= sink_outs::<XorDoubleSink>(0u64, p.0));
                lemma_sink_outs_len::<XorDoubleSink>(0u64, p.0);
            }
        }
        let vals = sink.values();
        if vals.len() != count || consumed != bytes.len() {
            return Err(CodecError::InconsistentLength);
        }
        let counts = copied(vals);
        Ok(
            DecodedHistogram {
                format: HistogramFormat::XorDoubleBuckets,
                num_buckets: count,
                initial_bits: 0,
                multiplier_bits: 0,
                counts,
            },
        )
    } else {
        Err(CodecError::Unsupported)
    }
}

/// Recomposing the eight little-endian bytes of a pattern yields the
/// pattern.
proof fn lemma_u64le_round_trip(v: u64)
    ensures
        read_u64le(u64le_bytes(v), 0) == v as nat,
{
    let x = v as int;
    lemma_fundamental_div_mod(x, 0x100);
    lemma_mod_bound(x, 0x100);
    lemma_fundamental_div_mod(x / 0x100, 0x100);
    lemma_mod_bound(x / 0x100, 0x100);
    lemma_div_denominator(x, 0x100, 0x100);
    lemma_fundamental_div_mod(x / 0x10000, 0x100);
    lemma_mod_bound(x / 0x10000, 0x100);
    lemma_div_denominator(x, 0x10000, 0x100);
    lemma_fundamental_div_mod(x / 0x1000000, 0x100);
    lemma_mod_bound(x / 0x1000000, 0x100);
    lemma_div_denominator(x, 0x1000000, 0x100);
    lemma_fundamental_div_mod(x / 0x100000000, 0x100);
    lemma_mod_bound(x / 0x100000000, 0x100);
    lemma_div_denominator(x, 0x100000000, 0x100);
    lemma_fundamental_div_mod(x / 0x10000000000, 0x100);
    lemma_mod_bound(x / 0x10000000000, 0x100);
    lemma_div_denominator(x, 0x10000000000, 0x100);
    lemma_fundamental_div_mod(x / 0x1000000000000, 0x100);
    lemma_mod_bound(x / 0x1000000000000, 0x100);
    lemma_div_denominator(x, 0x1000000000000, 0x100);
    assert(x / 0x100000000000000 < 0x100) by {
        lemma_multiply_divide_lt(x, 0x100000000000000, 0x100);
    };
    lemma_small_mod((x / 0x100000000000000) as nat, 0x100nat);
    lemma_div_pos_is_pos(x, 0x100);
    lemma_div_pos_is_pos(x / 0x100, 0x100);
    lemma_div_pos_is_pos(x / 0x10000, 0x100);
    lemma_div_pos_is_pos(x / 0x1000000, 0x100);
    lemma_div_pos_is_pos(x / 0x100000000, 0x100);
    lemma_div_pos_is_pos(x / 0x10000000000, 0x100);
    lemma_div_pos_is_pos(x / 0x1000000000000, 0x100);
}

/// Reversing twice gives the sequence back.
pub proof fn lemma_rev_rev(s: Seq<u64>)
    ensures
        rev(rev(s)) == s,
{
    assert(rev(rev(s)) =~= s);
}

/// Histogram round trip: a geometric frame decodes to exactly the bucket
/// counts it was built from, in their original order, with its format and
/// both parameter patterns intact — on the plain path and on the
/// reversal path alike.
pub proof fn lemma_histogram_round_trip(
    f: HistogramFormat,
    initial_bits: u64,
    multiplier_bits: u64,
    values: Seq<u64>,
)
    requires
        f == HistogramFormat::GeometricIncreasing || f == HistogramFormat::GeometricNonIncreasing,
        values.len() <= 65535,
    ensures
        spec_decode_histogram(geom_frame_bytes(f, initial_bits, multiplier_bits, values)) == Ok::<
            (HistogramFormat, nat, u64, u64, Seq<u64>),
            CodecError,
        >((f, values.len() as nat, initial_bits, multiplier_bits, values)),
{
    let frame = geom_frame_bytes(f, initial_bits, multiplier_bits, values);
    let stored = stored_order(f, values);
    let deltas = wrap_deltas(stored);
    let sb = stream_bytes(deltas);
    let n = values.len() as nat;
    assert(frame.len() == 19 + sb.len());
    assert(frame[0] == format_code(f));
    assert(frame[1] == u16le_bytes(n)[0] && frame[2] == u16le_bytes(n)[1]);
    assert(read_u16le(frame, 1) == n) by {
        lemma_fundamental_div_mod(n as int, 256);
        lemma_mod_bound(n as int, 256);
        lemma_small_mod((n as int / 256) as nat, 256nat);
        lemma_div_pos_is_pos(n as int, 256);
        assert(n as int / 256 < 256) by {
            lemma_multiply_divide_lt(n as int, 256, 256);
        };
    };
    assert forall|k: int| 0 <= k < 8 implies frame[3 + k] == u64le_bytes(initial_bits)[k]
        && frame[11 + k] == u64le_bytes(multiplier_bits)[k] by {};
    assert(read_u64le(frame, 3) == initial_bits as nat) by {
        assert(frame[3] == u64le_bytes(initial_bits)[0]);
        assert(frame[4] == u64le_bytes(initial_bits)[1]);
        assert(frame[5] == u64le_bytes(initial_bits)[2]);
        assert(frame[6] == u64le_bytes(initial_bits)[3]);
        assert(frame[7] == u64le_bytes(initial_bits)[4]);
        assert(frame[8] == u64le_bytes(initial_bits)[5]);
        assert(frame[9] == u64le_bytes(initial_bits)[6]);
        assert(frame[10] == u64le_bytes(initial_bits)[7]);
        lemma_u64le_round_trip(initial_bits);
    };
    assert(read_u64le(frame, 11) == multiplier_bits as nat) by {
        assert(frame[11] == u64le_bytes(multiplier_bits)[0]);
        assert(frame[12] == u64le_bytes(multiplier_bits)[1]);
        assert(frame[13] == u64le_bytes(multiplier_bits)[2]);
        assert(frame[14] == u64le_bytes(multiplier_bits)[3]);
        assert(frame[15] == u64le_bytes(multiplier_bits)[4]);
        assert(frame[16] == u64le_bytes(multiplier_bits)[5]);
        assert(frame[17] == u64le_bytes(multiplier_bits)[6]);
        assert(frame[18] == u64le_bytes(multiplier_bits)[7]);
        lemma_u64le_round_trip(multiplier_bits);
    };
    assert(frame.subrange(19, frame.len() as int) =~= sb) by {
        assert forall|q: int| 0 <= q < sb.len() implies frame.subrange(19, frame.len() as int)[q]
            == sb[q] by {
            assert(frame[19 + q] == sb[q]);
        };
    };
    lemma_stream_parse(frame, 19, deltas);
    lemma_delta_sink_reconstructs(stored);
    if f == HistogramFormat::GeometricNonIncreasing {
        lemma_rev_rev(values);
    }
}

/// XOR-double round trip: an XOR frame decodes to exactly the pattern
/// sequence it was built from.
pub proof fn lemma_xor_frame_round_trip(values: Seq<u64>)
    requires
        values.len() <= 65535,
    ensures
        spec_decode_histogram(xor_frame_bytes(values)) == Ok::<
            (HistogramFormat, nat, u64, u64, Seq<u64>),
            CodecError,
        >((HistogramFormat::XorDoubleBuckets, values.len() as nat, 0u64, 0u64, values)),
{
    let frame = xor_frame_bytes(values);
    let deltas = xor_deltas(values);
    let sb = stream_bytes(deltas);
    let n = values.len() as nat;
    assert(frame.len() == 3 + sb.len());
    assert(frame[0] == 4u8);
    assert(frame[1] == u16le_bytes(n)[0] && frame[2] == u16le_bytes(n)[1]);
    assert(read_u16le(frame, 1) == n) by {
        lemma_fundamental_div_mod(n as int, 256);
        lemma_mod_bound(n as int, 256);
        lemma_small_mod((n as int / 256) as nat, 256nat);
        lemma_div_pos_is_pos(n as int, 256);
        assert(n as int / 256 < 256) by {
            lemma_multiply_divide_lt(n as int, 256, 256);
        };
    };
    assert(frame.subrange(3, frame.len() as int) =~= sb) by {
        assert forall|q: int| 0 <= q < sb.len() implies frame.subrange(3, frame.len() as int)[q]
            == sb[q] by {
            assert(frame[3 + q] == sb[q]);
        };
    };
    lemma_stream_parse(frame, 3, deltas);
    lemma_xor_sink_reconstructs(values);
}

/// Copy a borrowed value buffer.
fn copied(values: &Vec<u64>) -> (r: Vec<u64>)
    ensures
        r@ == values@,
{
    let mut r: Vec<u64> = Vec::new();
    let mut i: usize = 0;
    while i < values.len()
        invariant
            i <= values@.len(),
            r@ =~= values@.take(i as int),
        decreases values@.len() - i,
    {
        proof {
            assert(values@.take(i + 1) =~= values@.take(i as int).push(values@[i as int]));
        }
        r.push(values[i]);
        i = i + 1;
    }
    proof {
        assert(values@.take(values@.len() as int) =~= values@);
    }
    r
}

/// Read the eight little-endian bytes at `pos` back into a pattern.
fn read_u64_at(bytes: &Vec<u8>, pos: usize) -> (r: u64)
    requires
        pos + 8 <= bytes@.len(),
    ensures
        r as nat == read_u64le(bytes@, pos as int),
{
    let _blen: usize = bytes.len();
    let mut r: u64 = bytes[pos + 7] as u64;
    r = r * 256 + bytes[pos + 6] as u64;
    r = r * 256 + bytes[pos + 5] as u64;
    r = r * 256 + bytes[pos + 4] as u64;
    r = r * 256 + bytes[pos + 3] as u64;
    r = r * 256 + bytes[pos + 2] as u64;
    r = r * 256 + bytes[pos + 1] as u64;
    r = r * 256 + bytes[pos] as u64;
    r
}

/// Drive the stream decoder from byte position `pos` of a frame.
fn unpack_at<S: Sink>(bytes: &Vec<u8>, pos: usize, sink: &mut S) -> (r: Result<usize, CodecError>)
    requires
        old(sink).inv(),
        pos <= bytes@.len(),
        bytes@.len() < usize::MAX / 2,
    ensures
        match spec_unpack_stream(bytes@, pos as int) {
            Ok(p) => r == Ok::<usize, CodecError>(p.1 as usize) && pos as int <= p.1
                <= bytes@.len() && final(sink).inv()
                && final(sink).out() == old(sink).out() + sink_outs::<S>(old(sink).basis(), p.0)
                && final(sink).basis() == basis_after::<S>(old(sink).basis(), p.0),
            Err(e) => r == Err::<usize, CodecError>(e) && *final(sink) == *old(sink),
        },
{
    let mut tmp: Vec<u64> = Vec::new();
    match unpack_raw(bytes, pos, &mut tmp) {
        Ok(consumed) => {
            feed_all(sink, &tmp);
            Ok(consumed)
        },
        Err(e) => Err(e),
    }
}

} // verus!
