//! The block codec: groups of eight `u64` values encoded as one control
//! byte (shared nibble width), one zero-mask byte, and the nonzero values
//! packed back to back at that width, nibble-aligned. A stream is a
//! four-byte little-endian value count followed by its groups, the last
//! group zero-padded.

use vstd::prelude::*;
use vstd::arithmetic::div_mod::*;
use crate::byteutils::{
    pow16, nib_width, nibble_at, val_of_nibs, nib_seq, lemma_pow16_pos, lemma_pow16_increases,
    lemma_nib_width_le_16, lemma_nib_width_minimal, lemma_val_of_nib_seq, bit_width, read_nibbles,
};
use crate::sink::{
    Sink, sink_outs, basis_after, feed_all, DeltaSink, wrap_deltas, lemma_delta_sink_reconstructs,
};
use crate::CodecError;

verus! {

/// `2^i`, for mask-bit positions.
pub open spec fn bitp(i: nat) -> nat
    decreases i,
{
    if i == 0 {
        1
    } else {
        2 * bitp((i - 1) as nat)
    }
}

/// Whether bit `i` of mask byte `m` is set; a set bit marks a nonzero slot.
pub open spec fn bit_of(m: u8, i: nat) -> bool {
    (m as nat / bitp(i)) % 2 == 1
}

/// Mask bits of the first `k` slots: bit `i` set iff slot `i` is nonzero.
pub open spec fn mask_upto(vals: Seq<u64>, k: int) -> nat
    decreases k,
{
    if k <= 0 {
        0
    } else {
        (mask_upto(vals, k - 1) + if vals[k - 1] != 0 {
            bitp((k - 1) as nat)
        } else {
            0nat
        }) as nat
    }
}

/// The zero-mask byte of an eight-slot group.
pub open spec fn mask_of(vals: Seq<u64>) -> nat {
    mask_upto(vals, 8)
}

/// Largest nibble width over the first `k` slots.
pub open spec fn width_upto(vals: Seq<u64>, k: int) -> nat
    decreases k,
{
    if k <= 0 {
        0
    } else {
        let rest = width_upto(vals, k - 1);
        let wk = nib_width(vals[k - 1] as nat);
        if wk > rest {
            wk
        } else {
            rest
        }
    }
}

/// The shared nibble width of an eight-slot group: the width of its
/// largest value, zero when every slot is zero.
pub open spec fn group_width(vals: Seq<u64>) -> nat {
    width_upto(vals, 8)
}

/// Number of set mask bits below position `i`.
pub open spec fn rank_of(m: u8, i: int) -> nat
    decreases i,
{
    if i <= 0 {
        0
    } else {
        (rank_of(m, i - 1) + if bit_of(m, (i - 1) as nat) {
            1nat
        } else {
            0nat
        }) as nat
    }
}

/// Payload nibbles of slots `i..8`: `w` nibbles per nonzero slot, in slot
/// order; zero slots contribute nothing.
pub open spec fn slots_nibs(vals: Seq<u64>, w: nat, i: int) -> Seq<u8>
    decreases 8 - i,
{
    if i >= 8 {
        Seq::empty()
    } else {
        (if vals[i] == 0 {
            Seq::empty()
        } else {
            nib_seq(vals[i], w)
        }) + slots_nibs(vals, w, i + 1)
    }
}

/// Nibbles packed two to a byte, low nibble first; an odd tail nibble
/// shares its byte with a zero pad.
pub open spec fn pack_nibs(nibs: Seq<u8>) -> Seq<u8>
    decreases nibs.len(),
{
    if nibs.len() == 0 {
        Seq::empty()
    } else if nibs.len() == 1 {
        seq![nibs[0]]
    } else {
        seq![(nibs[0] + 16 * nibs[1]) as u8] + pack_nibs(nibs.skip(2))
    }
}

/// Wire bytes of one eight-slot group: control byte, mask byte, payload.
pub open spec fn group_bytes(vals: Seq<u64>) -> Seq<u8> {
    seq![group_width(vals) as u8, mask_of(vals) as u8] + pack_nibs(
        slots_nibs(vals, group_width(vals), 0),
    )
}

/// An eight-slot group holding a prefix of `s`, zero-padded at the tail.
pub open spec fn pad8(s: Seq<u64>) -> Seq<u64> {
    Seq::new(8, |k: int| if k < s.len() { s[k] } else { 0u64 })
}

/// Wire bytes of the groups of `vals`, eight values at a time.
pub open spec fn groups_bytes(vals: Seq<u64>) -> Seq<u8>
    decreases vals.len(),
{
    if vals.len() == 0 {
        Seq::empty()
    } else if vals.len() <= 8 {
        group_bytes(pad8(vals))
    } else {
        group_bytes(pad8(vals.take(8))) + groups_bytes(vals.skip(8))
    }
}

/// The four-byte little-endian count header.
pub open spec fn count_bytes(n: nat) -> Seq<u8> {
    seq![
        (n % 256) as u8,
        ((n / 256) % 256) as u8,
        ((n / 65536) % 256) as u8,
        ((n / 16777216) % 256) as u8,
    ]
}

/// The complete wire form of a value sequence: count header, then groups.
pub open spec fn stream_bytes(vals: Seq<u64>) -> Seq<u8> {
    count_bytes(vals.len()) + groups_bytes(vals)
}

/// The count header read back.
pub open spec fn read_u32le(bytes: Seq<u8>, pos: int) -> nat {
    (bytes[pos] + 256 * bytes[pos + 1] + 65536 * bytes[pos + 2] + 16777216 * bytes[pos
        + 3]) as nat
}

/// What one group at byte position `pos` decodes to: the eight slot
/// values and the position just past the group.
pub open spec fn spec_unpack_group(bytes: Seq<u8>, pos: int) -> Result<
    (Seq<u64>, int),
    CodecError,
> {
    if pos + 2 > bytes.len() {
        Err(CodecError::TruncatedInput)
    } else {
        let w = bytes[pos] as nat;
        let m = bytes[pos + 1];
        if w > 16 {
            Err(CodecError::Unsupported)
        } else {
            let pb = (w * rank_of(m, 8) + 1) / 2;
            if pos + 2 + pb > bytes.len() {
                Err(CodecError::TruncatedInput)
            } else {
                Ok((group_vals(bytes, m, w, 2 * (pos + 2), 0), pos + 2 + pb))
            }
        }
    }
}

/// The slot values of one group, walked from slot `i` with the payload
/// cursor at nibble position `nibpos`: a set mask bit takes `w` payload
/// nibbles, a clear bit yields zero and consumes nothing.
pub open spec fn group_vals(bytes: Seq<u8>, m: u8, w: nat, nibpos: int, i: int) -> Seq<u64>
    decreases 8 - i,
{
    if i >= 8 {
        Seq::empty()
    } else if bit_of(m, i as nat) {
        seq![val_of_nibs(bytes, nibpos, w) as u64] + group_vals(bytes, m, w, nibpos + w, i + 1)
    } else {
        seq![0u64] + group_vals(bytes, m, w, nibpos, i + 1)
    }
}

/// What `count` declared values decode to from byte position `pos`: group
/// after group, the last group contributing only the values still owed.
pub open spec fn spec_unpack_groups(bytes: Seq<u8>, pos: int, count: nat) -> Result<
    (Seq<u64>, int),
    CodecError,
>
    decreases count,
{
    if count == 0 {
        Ok((Seq::empty(), pos))
    } else {
        match spec_unpack_group(bytes, pos) {
            Err(e) => Err(e),
            Ok(g) => {
                let take = if count >= 8 {
                    8nat
                } else {
                    count
                };
                match spec_unpack_groups(bytes, g.1, (count - take) as nat) {
                    Err(e) => Err(e),
                    Ok(rest) => Ok((g.0.take(take as int) + rest.0, rest.1)),
                }
            },
        }
    }
}

/// What a whole stream at byte position `pos` decodes to: the declared
/// count of raw values and the position just past the last group read.
/// A zero count with bytes left over, or a nonzero count with none, is
/// inconsistent; a header or group cut short is truncation.
pub open spec fn spec_unpack_stream(bytes: Seq<u8>, pos: int) -> Result<
    (Seq<u64>, int),
    CodecError,
> {
    if pos + 4 > bytes.len() {
        Err(CodecError::TruncatedInput)
    } else {
        let n = read_u32le(bytes, pos);
        if n == 0 {
            if pos + 4 < bytes.len() {
                Err(CodecError::InconsistentLength)
            } else {
                Ok((Seq::empty(), pos + 4))
            }
        } else if pos + 4 == bytes.len() {
            Err(CodecError::InconsistentLength)
        } else {
            spec_unpack_groups(bytes, pos + 4, n)
        }
    }
}

pub proof fn lemma_bitp_values()
    ensures
        bitp(0) == 1,
        bitp(1) == 2,
        bitp(2) == 4,
        bitp(3) == 8,
        bitp(4) == 16,
        bitp(5) == 32,
        bitp(6) == 64,
        bitp(7) == 128,
        bitp(8) == 256,
{
    assert(bitp(1) == 2 * bitp(0));
    assert(bitp(2) == 2 * bitp(1));
    assert(bitp(3) == 2 * bitp(2));
    assert(bitp(4) == 2 * bitp(3));
    assert(bitp(5) == 2 * bitp(4));
    assert(bitp(6) == 2 * bitp(5));
    assert(bitp(7) == 2 * bitp(6));
    assert(bitp(8) == 2 * bitp(7));
}

pub proof fn lemma_bitp_pos(i: nat)
    ensures
        bitp(i) >= 1,
    decreases i,
{
    if i > 0 {
        lemma_bitp_pos((i - 1) as nat);
    }
}

proof fn lemma_bitp_adds(a: nat, b: nat)
    ensures
        bitp(a + b) == bitp(a) * bitp(b),
    decreases b,
{
    if b == 0 {
        assert(bitp(a) * 1 == bitp(a)) by (nonlinear_arith);
    } else {
        lemma_bitp_adds(a, (b - 1) as nat);
        assert(bitp(a + b) == 2 * bitp((a + b - 1) as nat));
        assert(bitp(a) * (2 * bitp((b - 1) as nat)) == 2 * (bitp(a) * bitp((b - 1) as nat)))
            by (nonlinear_arith);
    }
}

pub proof fn lemma_mask_upto_bound(vals: Seq<u64>, k: int)
    requires
        k >= 0,
    ensures
        mask_upto(vals, k) < bitp(k as nat),
    decreases k,
{
    if k == 0 {
    } else {
        lemma_mask_upto_bound(vals, k - 1);
    }
}

/// Bit `i` of the mask of a group is set exactly when slot `i` is nonzero.
pub proof fn lemma_mask_bit(vals: Seq<u64>, i: int, k: int)
    requires
        0 <= i < k,
    ensures
        (mask_upto(vals, k) / bitp(i as nat)) % 2 == (if vals[i] != 0 {
            1nat
        } else {
            0nat
        }),
    decreases k,
{
    let d = bitp(i as nat);
    lemma_bitp_pos(i as nat);
    if k == i + 1 {
        let lo = mask_upto(vals, i);
        lemma_mask_upto_bound(vals, i);
        let c: nat = if vals[i] != 0 {
            1nat
        } else {
            0nat
        };
        assert(c * d == if vals[i] != 0 {
            d
        } else {
            0nat
        }) by (nonlinear_arith)
            requires
                c == if vals[i] != 0 {
                    1nat
                } else {
                    0nat
                },
        ;
        assert(mask_upto(vals, k) == lo + c * d);
        lemma_hoist_over_denominator(lo as int, c as int, d);
        lemma_basic_div(lo as int, d as int);
        assert(mask_upto(vals, k) as int / d as int == c);
        if vals[i] != 0 {
            lemma_small_mod(1nat, 2nat);
        } else {
            lemma_small_mod(0nat, 2nat);
        }
    } else {
        lemma_mask_bit(vals, i, k - 1);
        let prev = mask_upto(vals, k - 1);
        let c: nat = if vals[k - 1] != 0 {
            1nat
        } else {
            0nat
        };
        let g = bitp((k - 1 - i) as nat);
        assert(bitp((k - 1) as nat) == d * g) by {
            lemma_bitp_adds(i as nat, (k - 1 - i) as nat);
        };
        assert(c * (d * g) == (c * g) * d) by (nonlinear_arith);
        assert(mask_upto(vals, k) == prev + (c * g) * d) by {
            assert(c * bitp((k - 1) as nat) == if vals[k - 1] != 0 {
                bitp((k - 1) as nat)
            } else {
                0nat
            }) by (nonlinear_arith)
                requires
                    c == if vals[k - 1] != 0 {
                        1nat
                    } else {
                        0nat
                    },
            ;
            assert(c * bitp((k - 1) as nat) == c * (d * g)) by (nonlinear_arith)
                requires
                    bitp((k - 1) as nat) == d * g,
            ;
        };
        lemma_hoist_over_denominator(prev as int, (c * g) as int, d);
        assert(mask_upto(vals, k) as int / d as int == prev as int / d as int + c * g);
        // c * g is even, so the parity below bit i is unchanged.
        assert(k - 1 - i >= 1);
        assert(g == 2 * bitp((k - 2 - i) as nat));
        let h = bitp((k - 2 - i) as nat);
        assert(c * g == 2 * (c * h)) by (nonlinear_arith)
            requires
                g == 2 * h,
        ;
        let q = prev as int / d as int;
        assert(q >= 0) by {
            lemma_div_pos_is_pos(prev as int, d as int);
        };
        assert((q + 2 * (c * h)) % 2 == q % 2) by {
            lemma_mod_multiples_vanish((c * h) as int, q, 2);
        };
    }
}

/// The group width bounds every slot's own width and is attained by a
/// nonzero slot whenever the group is not all zero.
pub proof fn lemma_width_upto(vals: Seq<u64>, k: int)
    requires
        k >= 0,
    ensures
        forall|i: int| 0 <= i < k ==> nib_width(vals[i] as nat) <= width_upto(vals, k),
        width_upto(vals, k) > 0 ==> exists|i: int|
            0 <= i < k && vals[i] != 0 && nib_width(vals[i] as nat) == width_upto(vals, k),
    decreases k,
{
    if k > 0 {
        lemma_width_upto(vals, k - 1);
        if width_upto(vals, k) > 0 {
            let w = width_upto(vals, k);
            if nib_width(vals[k - 1] as nat) == w {
                assert(vals[k - 1] != 0);
            } else {
                assert(width_upto(vals, k - 1) == w);
                let i = choose|i: int|
                    0 <= i < k - 1 && vals[i] != 0 && nib_width(vals[i] as nat) == w;
                assert(0 <= i < k && vals[i] != 0 && nib_width(vals[i] as nat) == w);
            }
        }
    }
}

/// How many of slots `i..8` are nonzero.
pub open spec fn count_nz(vals: Seq<u64>, i: int) -> nat
    decreases 8 - i,
{
    if i >= 8 {
        0
    } else {
        ((if vals[i] != 0 {
            1nat
        } else {
            0nat
        }) + count_nz(vals, i + 1)) as nat
    }
}

/// The payload of slots `i..8` holds `w` nibbles per nonzero slot, each
/// one a genuine nibble.
pub proof fn lemma_slots_nibs_parts(vals: Seq<u64>, w: nat, i: int)
    requires
        0 <= i <= 8,
    ensures
        slots_nibs(vals, w, i).len() == w * count_nz(vals, i),
        forall|j: int|
            0 <= j < slots_nibs(vals, w, i).len() ==> #[trigger] slots_nibs(vals, w, i)[j] < 16,
    decreases 8 - i,
{
    if i >= 8 {
        assert(count_nz(vals, i) == 0);
        assert(w * 0 == 0) by (nonlinear_arith);
    } else {
        lemma_slots_nibs_parts(vals, w, i + 1);
        let head: Seq<u8> = if vals[i] == 0 {
            Seq::empty()
        } else {
            nib_seq(vals[i], w)
        };
        assert forall|j: int| 0 <= j < head.len() implies head[j] < 16 by {
            lemma_pow16_pos(j as nat);
            lemma_mod_bound((vals[i] as nat / pow16(j as nat)) as int, 16);
        };
        assert(w * count_nz(vals, i) == head.len() + w * count_nz(vals, i + 1))
            by (nonlinear_arith)
            requires
                head.len() == if vals[i] == 0 { 0int } else { w as int },
                count_nz(vals, i) == (if vals[i] != 0 { 1nat } else { 0nat }) + count_nz(
                    vals,
                    i + 1,
                ),
        ;
    }
}

/// The mask's set-bit count agrees with the group's nonzero-slot count
/// when the mask's bits match the slots' zero pattern.
pub proof fn lemma_rank_counts_nz(vals: Seq<u64>, m: u8, i: int)
    requires
        0 <= i <= 8,
        forall|k: int| 0 <= k < 8 ==> (bit_of(m, k as nat) <==> vals[k] != 0),
    ensures
        rank_of(m, 8) == rank_of(m, i) + count_nz(vals, i),
    decreases 8 - i,
{
    if i < 8 {
        lemma_rank_counts_nz(vals, m, i + 1);
    }
}

/// Packing pairs of nibbles yields one byte per two nibbles, rounded up.
pub proof fn lemma_pack_nibs_len(nibs: Seq<u8>)
    ensures
        pack_nibs(nibs).len() == (nibs.len() + 1) / 2,
    decreases nibs.len(),
{
    if nibs.len() >= 2 {
        lemma_pack_nibs_len(nibs.skip(2));
    }
}

/// The packed bytes hold exactly the packed nibbles, in order, and a zero
/// pad nibble after an odd tail.
pub proof fn lemma_pack_nibs_at(nibs: Seq<u8>, j: int)
    requires
        forall|k: int| 0 <= k < nibs.len() ==> #[trigger] nibs[k] < 16,
        0 <= j < 2 * pack_nibs(nibs).len(),
    ensures
        j < nibs.len() ==> nibble_at(pack_nibs(nibs), j) == nibs[j],
        j >= nibs.len() ==> nibble_at(pack_nibs(nibs), j) == 0,
    decreases nibs.len(),
{
    let packed = pack_nibs(nibs);
    lemma_pack_nibs_len(nibs);
    if nibs.len() == 1 {
        let b = nibs[0];
        if j == 0 {
            lemma_small_mod(b as nat, 16nat);
        } else {
            assert(j == 1);
            lemma_basic_div(b as int, 16);
        }
    } else if nibs.len() >= 2 {
        let b: u8 = (nibs[0] + 16 * nibs[1]) as u8;
        assert(nibs[0] + 16 * nibs[1] <= 255);
        if j == 0 {
            assert(b as int % 16 == nibs[0]) by {
                lemma_add_mod_noop(nibs[0] as int, 16 * nibs[1], 16);
                lemma_mod_multiples_basic(nibs[1] as int, 16);
                lemma_small_mod(nibs[0] as nat, 16nat);
                lemma_small_mod((nibs[0] as int % 16) as nat, 16nat);
            };
        } else if j == 1 {
            assert(b as int / 16 == nibs[1]) by {
                lemma_hoist_over_denominator(nibs[0] as int, nibs[1] as int, 16);
                lemma_basic_div(nibs[0] as int, 16);
            };
        } else {
            lemma_pack_nibs_at(nibs.skip(2), j - 2);
            // One byte in front shifts every nibble position by two.
            assert(nibble_at(packed, j) == nibble_at(pack_nibs(nibs.skip(2)), j - 2)) by {
                lemma_fundamental_div_mod(j, 2);
                lemma_mod_bound(j, 2);
                lemma_hoist_over_denominator(j - 2, 1, 2);
                assert(j / 2 == (j - 2) / 2 + 1);
                lemma_mod_multiples_vanish(1, j - 2, 2);
                assert(packed[j / 2] == pack_nibs(nibs.skip(2))[(j - 2) / 2]);
            };
        }
    }
}

/// Append the wire bytes of one eight-slot group to `out`: control byte,
/// zero-mask byte, then the nonzero slots packed at the shared width.
pub fn pack_group(group: &Vec<u64>, out: &mut Vec<u8>)
    requires
        group@.len() == 8,
    ensures
        final(out)@ == old(out)@ + group_bytes(group@),
{
    let ghost vals: Seq<u64> = group@;
    let ghost out0: Seq<u8> = out@;
    // Zero mask: bit i set when slot i is nonzero.
    let mut mask: u16 = 0;
    let mut bit: u16 = 1;
    let mut i: usize = 0;
    while i < 8
        invariant
            i <= 8,
            group@.len() == 8,
            mask == mask_upto(group@, i as int),
            bit == bitp(i as nat),
        decreases 8 - i,
    {
        proof {
            lemma_bitp_values();
            lemma_bitp_pos(i as nat);
            lemma_mask_upto_bound(group@, i as int);
            assert(bitp(i as nat) <= 128) by {
                if i as nat > 7 {
                } else {
                    lemma_bitp_monotone(i as nat, 7);
                }
            };
        }
        if group[i] != 0 {
            mask = mask + bit;
        }
        bit = bit * 2;
        i = i + 1;
    }
    proof {
        lemma_mask_upto_bound(group@, 8);
        lemma_bitp_values();
        assert(mask < 256);
    }
    // Shared nibble width: the largest slot width.
    let mut w: u32 = 0;
    let mut i2: usize = 0;
    while i2 < 8
        invariant
            i2 <= 8,
            group@.len() == 8,
            w == width_upto(group@, i2 as int),
            w <= 16,
        decreases 8 - i2,
    {
        let bw: u32 = bit_width(group[i2]);
        proof {
            lemma_nib_width_le_16(group@[i2 as int]);
            lemma_div_multiples_vanish(nib_width(group@[i2 as int] as nat) as int, 4);
        }
        let nw: u32 = bw / 4;
        if nw > w {
            w = nw;
        }
        i2 = i2 + 1;
    }
    out.push(w as u8);
    out.push(mask as u8);
    let ghost out1: Seq<u8> = out@;
    // Collect the payload nibbles, low nibble of each value first.
    let mut nibs: Vec<u8> = Vec::new();
    let mut i3: usize = 0;
    proof {
        lemma_width_upto(group@, 8);
        assert(Seq::<u8>::empty() + slots_nibs(group@, w as nat, 0) =~= slots_nibs(
            group@,
            w as nat,
            0,
        ));
    }
    while i3 < 8
        invariant
            i3 <= 8,
            group@.len() == 8,
            w <= 16,
            forall|k: int| 0 <= k < 8 ==> nib_width(group@[k] as nat) <= w,
            slots_nibs(group@, w as nat, 0) == nibs@ + slots_nibs(group@, w as nat, i3 as int),
            forall|k: int| 0 <= k < nibs@.len() ==> #[trigger] nibs@[k] < 16,
        decreases 8 - i3,
    {
        if group[i3] != 0 {
            let ghost nib0: Seq<u8> = nibs@;
            let ghost v: u64 = group@[i3 as int];
            let mut cur: u64 = group[i3];
            let mut j: u32 = 0;
            proof {
                assert(pow16(0) == 1);
                lemma_div_basics_2(v as int);
            }
            while j < w
                invariant
                    j <= w,
                    w <= 16,
                    cur as nat == v as nat / pow16(j as nat),
                    nibs@ == nib0 + nib_seq(v, w as nat).take(j as int),
                    forall|k: int| 0 <= k < nibs@.len() ==> #[trigger] nibs@[k] < 16,
                decreases w - j,
            {
                proof {
                    lemma_mod_bound(cur as int, 16);
                    assert(nib_seq(v, w as nat).take(j + 1) =~= nib_seq(v, w as nat).take(
                        j as int,
                    ).push((cur % 16) as u8));
                    lemma_pow16_pos(j as nat);
                    lemma_div_denominator(v as int, pow16(j as nat) as int, 16);
                    assert(pow16((j + 1) as nat) == 16 * pow16(j as nat));
                }
                nibs.push((cur % 16) as u8);
                cur = cur / 16;
                j = j + 1;
            }
            proof {
                assert(nib_seq(v, w as nat).take(w as int) =~= nib_seq(v, w as nat));
                assert(slots_nibs(group@, w as nat, i3 as int) == nib_seq(v, w as nat)
                    + slots_nibs(group@, w as nat, i3 + 1));
                assert((nib0 + nib_seq(v, w as nat)) + slots_nibs(group@, w as nat, i3 + 1)
                    =~= nib0 + (nib_seq(v, w as nat) + slots_nibs(group@, w as nat, i3 + 1)));
            }
        } else {
            proof {
                assert(slots_nibs(group@, w as nat, i3 as int) =~= slots_nibs(
                    group@,
                    w as nat,
                    i3 + 1,
                ));
            }
        }
        i3 = i3 + 1;
    }
    proof {
        assert(slots_nibs(group@, w as nat, 8) =~= Seq::<u8>::empty());
        assert(nibs@ + Seq::<u8>::empty() =~= nibs@);
        assert(nibs@ == slots_nibs(group@, w as nat, 0));
        lemma_slots_nibs_parts(group@, w as nat, 0);
        lemma_count_nz_bound(group@, 0);
        assert(w as nat * count_nz(group@, 0) <= 128) by (nonlinear_arith)
            requires
                w as nat <= 16,
                count_nz(group@, 0) <= 8,
        ;
    }
    // Pack the nibbles two to a byte, zero-padding an odd tail.
    let n: usize = nibs.len();
    let mut k: usize = 0;
    proof {
        assert(out@.take(out1.len() as int) =~= out1);
        assert(out@.skip(out1.len() as int) =~= Seq::<u8>::empty());
        assert(nibs@.skip(0) =~= nibs@);
        assert(Seq::<u8>::empty() + pack_nibs(nibs@) =~= pack_nibs(nibs@));
    }
    while k + 1 < n
        invariant
            k <= n,
            n == nibs@.len(),
            n <= 128,
            forall|q: int| 0 <= q < nibs@.len() ==> #[trigger] nibs@[q] < 16,
            out1.len() <= out@.len(),
            out@.take(out1.len() as int) == out1,
            pack_nibs(nibs@) == out@.skip(out1.len() as int) + pack_nibs(nibs@.skip(k as int)),
        decreases n - k,
    {
        let b: u8 = nibs[k] + 16 * nibs[k + 1];
        proof {
            let s = nibs@.skip(k as int);
            assert(s[0] == nibs@[k as int]);
            assert(s[1] == nibs@[k + 1]);
            assert(s.skip(2) =~= nibs@.skip(k + 2));
            assert(pack_nibs(s) == seq![b] + pack_nibs(nibs@.skip(k + 2)));
            assert(out@.push(b).skip(out1.len() as int) =~= out@.skip(out1.len() as int).push(
                b,
            ));
            assert(out@.skip(out1.len() as int).push(b) + pack_nibs(nibs@.skip(k + 2)) =~= out@.skip(
                out1.len() as int,
            ) + (seq![b] + pack_nibs(nibs@.skip(k + 2))));
            assert(out@.push(b).take(out1.len() as int) =~= out@.take(out1.len() as int));
        }
        out.push(b);
        k = k + 2;
    }
    if k < n {
        let b: u8 = nibs[k];
        proof {
            let s = nibs@.skip(k as int);
            assert(s.len() == 1);
            assert(s[0] == nibs@[k as int]);
            assert(pack_nibs(s) =~= seq![b]);
            assert(out@.push(b).skip(out1.len() as int) =~= out@.skip(out1.len() as int).push(
                b,
            ));
            assert(out@.skip(out1.len() as int).push(b) =~= out@.skip(out1.len() as int)
                + seq![b]);
            assert(out@.push(b).take(out1.len() as int) =~= out@.take(out1.len() as int));
        }
        out.push(b);
        k = k + 1;
    }
    proof {
        assert(nibs@.skip(n as int) =~= Seq::<u8>::empty());
        assert(out@.skip(out1.len() as int) + Seq::<u8>::empty() =~= out@.skip(
            out1.len() as int,
        ));
        assert(out@.skip(out1.len() as int) == pack_nibs(nibs@));
        assert(out1 =~= out0 + seq![w as u8, mask as u8]);
        assert(out@ =~= out@.take(out1.len() as int) + out@.skip(out1.len() as int));
        assert(group_width(vals) == w as nat);
        assert(mask_of(vals) == mask as nat);
        assert(out@ =~= out0 + group_bytes(vals));
    }
}

/// Append the complete wire form of `values` to `out`: the four-byte
/// little-endian count, then the values in groups of eight, the last
/// group zero-padded without raising the count.
pub fn pack(values: &Vec<u64>, out: &mut Vec<u8>)
    requires
        values@.len() <= u32::MAX,
    ensures
        final(out)@ == old(out)@ + stream_bytes(values@),
{
    let ghost out0: Seq<u8> = out@;
    let n32: u32 = values.len() as u32;
    out.push((n32 % 256) as u8);
    out.push(((n32 / 256) % 256) as u8);
    out.push(((n32 / 65536) % 256) as u8);
    out.push(((n32 / 16777216) % 256) as u8);
    let ghost out1: Seq<u8> = out@;
    proof {
        assert(out1 =~= out0 + count_bytes(values@.len() as nat));
    }
    let mut i: usize = 0;
    proof {
        assert(values@.skip(0) =~= values@);
        assert(out@.take(out1.len() as int) =~= out1);
        assert(out@.skip(out1.len() as int) =~= Seq::<u8>::empty());
        assert(Seq::<u8>::empty() + groups_bytes(values@) =~= groups_bytes(values@));
    }
    while i < values.len()
        invariant
            i <= values@.len(),
            out1.len() <= out@.len(),
            out@.take(out1.len() as int) == out1,
            groups_bytes(values@) == out@.skip(out1.len() as int) + groups_bytes(
                values@.skip(i as int),
            ),
        decreases values@.len() - i,
    {
        let full: bool = values.len() - i >= 8;
        let end: usize = if full {
            i + 8
        } else {
            values.len()
        };
        let mut grp: Vec<u64> = Vec::new();
        let mut k: usize = i;
        while k < end
            invariant
                i <= k <= end,
                end <= values@.len(),
                grp@ == values@.subrange(i as int, k as int),
            decreases end - k,
        {
            proof {
                assert(values@.subrange(i as int, k + 1) =~= values@.subrange(
                    i as int,
                    k as int,
                ).push(values@[k as int]));
            }
            grp.push(values[k]);
            k = k + 1;
        }
        while grp.len() < 8
            invariant
                i <= end <= values@.len(),
                end - i <= 8,
                grp@.len() <= 8,
                grp@.take((end - i) as int) == values@.subrange(i as int, end as int),
                grp@.len() >= end - i,
                forall|q: int| end - i <= q < grp@.len() ==> grp@[q] == 0u64,
            decreases 8 - grp@.len(),
        {
            proof {
                assert(grp@.push(0u64).take((end - i) as int) =~= grp@.take((end - i) as int));
            }
            grp.push(0u64);
        }
        let ghost rest: Seq<u64> = values@.skip(i as int);
        proof {
            assert(grp@.len() == 8);
            assert(grp@.take((end - i) as int) == values@.subrange(i as int, end as int));
            if full {
                assert(rest.take(8) =~= values@.subrange(i as int, i + 8));
                assert(grp@.take(8) =~= grp@);
                assert(pad8(rest.take(8)) =~= rest.take(8));
                assert(grp@ =~= pad8(rest.take(8)));
            } else {
                assert(rest =~= values@.subrange(i as int, end as int));
                assert forall|q: int| 0 <= q < 8 implies grp@[q] == pad8(rest)[q] by {
                    if q < end - i {
                        assert(grp@.take((end - i) as int)[q] == grp@[q]);
                    }
                };
                assert(grp@ =~= pad8(rest));
            }
        }
        let ghost pre: Seq<u8> = out@;
        pack_group(&grp, out);
        proof {
            if full {
                assert(groups_bytes(rest) == group_bytes(pad8(rest.take(8))) + groups_bytes(
                    rest.skip(8),
                ));
                assert(rest.skip(8) =~= values@.skip(i + 8));
            } else {
                assert(groups_bytes(rest) == group_bytes(pad8(rest)));
                assert(values@.skip(end as int) =~= Seq::<u64>::empty());
                assert(groups_bytes(values@.skip(end as int)) == Seq::<u8>::empty());
            }
            assert(out@.take(out1.len() as int) =~= pre.take(out1.len() as int));
            assert(out@.skip(out1.len() as int) =~= pre.skip(out1.len() as int) + group_bytes(
                grp@,
            ));
            assert((pre.skip(out1.len() as int) + group_bytes(grp@)) + groups_bytes(
                values@.skip(end as int),
            ) =~= pre.skip(out1.len() as int) + (group_bytes(grp@) + groups_bytes(
                values@.skip(end as int),
            )));
        }
        i = end;
    }
    proof {
        assert(values@.skip(values@.len() as int) =~= Seq::<u64>::empty());
        assert(groups_bytes(Seq::<u64>::empty()) == Seq::<u8>::empty());
        assert(out@.skip(out1.len() as int) + Seq::<u8>::empty() =~= out@.skip(
            out1.len() as int,
        ));
        assert(out@ =~= out@.take(out1.len() as int) + out@.skip(out1.len() as int));
        assert(out@ =~= out0 + stream_bytes(values@));
    }
}

/// Decode one group at byte position `pos`, appending the first `take`
/// of its eight slot values to `out`. Nothing is appended on any error.
fn unpack_group_raw(bytes: &Vec<u8>, pos: usize, take: usize, out: &mut Vec<u64>) -> (r: Result<
    usize,
    CodecError,
>)
    requires
        take <= 8,
        pos <= bytes@.len(),
        bytes@.len() < usize::MAX / 2,
    ensures
        match spec_unpack_group(bytes@, pos as int) {
            Ok(g) => r == Ok::<usize, CodecError>(g.1 as usize) && final(out)@ == old(out)@
                + g.0.take(take as int) && pos < g.1 <= bytes@.len(),
            Err(e) => r == Err::<usize, CodecError>(e) && final(out)@ == old(out)@,
        },
{
    let len: usize = bytes.len();
    if len - pos < 2 {
        return Err(CodecError::TruncatedInput);
    }
    let wb: u8 = bytes[pos];
    let m: u8 = bytes[pos + 1];
    if wb > 16 {
        return Err(CodecError::Unsupported);
    }
    let w: usize = wb as usize;
    // Count the set mask bits: the number of payload-bearing slots.
    let mut nz: usize = 0;
    let mut mm: u8 = m;
    let mut i: usize = 0;
    proof {
        assert(bitp(0) == 1);
        lemma_div_basics_2(m as int);
    }
    while i < 8
        invariant
            i <= 8,
            mm as nat == m as nat / bitp(i as nat),
            nz == rank_of(m, i as int),
            nz <= i,
        decreases 8 - i,
    {
        proof {
            lemma_bitp_pos(i as nat);
            lemma_div_denominator(m as int, bitp(i as nat) as int, 2);
            assert(bitp((i + 1) as nat) == 2 * bitp(i as nat));
            assert(bitp(i as nat) * 2 == 2 * bitp(i as nat));
            assert(m as nat / bitp((i + 1) as nat) == (m as nat / bitp(i as nat)) / 2);
        }
        if mm % 2 == 1 {
            nz = nz + 1;
        }
        mm = mm / 2;
        i = i + 1;
    }
    proof {
        assert(w * nz <= 128) by (nonlinear_arith)
            requires
                w <= 16,
                nz <= 8,
        ;
        lemma_fundamental_div_mod((w * nz + 1) as int, 2);
        lemma_mod_bound((w * nz + 1) as int, 2);
    }
    let pb: usize = (w * nz + 1) / 2;
    if len - pos - 2 < pb {
        return Err(CodecError::TruncatedInput);
    }
    let ghost base: int = 2 * (pos + 2);
    let ghost gvals: Seq<u64> = group_vals(bytes@, m, w as nat, base, 0);
    let ghost out0: Seq<u64> = out@;
    let ghost mut fp: Seq<u64> = Seq::empty();
    let mut nib_off: usize = 2 * (pos + 2);
    let mut i4: usize = 0;
    let mut mm2: u8 = m;
    proof {
        assert(bitp(0) == 1);
        lemma_div_basics_2(m as int);
        assert(rank_of(m, 0) == 0);
        assert(w as nat * 0 == 0) by (nonlinear_arith);
        assert(Seq::<u64>::empty() + gvals =~= gvals);
        assert(fp.take(0) =~= Seq::<u64>::empty());
        assert(out@ + Seq::<u64>::empty() =~= out@);
    }
    while i4 < 8
        invariant
            i4 <= 8,
            take <= 8,
            w <= 16,
            pos + 2 + pb <= bytes@.len(),
            bytes@.len() < usize::MAX / 2,
            mm2 as nat == m as nat / bitp(i4 as nat),
            2 * pb >= w * rank_of(m, 8),
            base == 2 * (pos + 2),
            gvals == group_vals(bytes@, m, w as nat, base, 0),
            out0 == old(out)@,
            rank_of(m, i4 as int) <= rank_of(m, 8),
            nib_off == base + w * rank_of(m, i4 as int),
            fp.len() == i4,
            gvals == fp + group_vals(bytes@, m, w as nat, nib_off as int, i4 as int),
            out@ == out0 + fp.take(
                if take <= i4 {
                    take as int
                } else {
                    i4 as int
                },
            ),
        decreases 8 - i4,
    {
        proof {
            lemma_bitp_pos(i4 as nat);
            lemma_div_denominator(m as int, bitp(i4 as nat) as int, 2);
            assert(bitp((i4 + 1) as nat) == 2 * bitp(i4 as nat));
            assert(bitp(i4 as nat) * 2 == 2 * bitp(i4 as nat));
            assert(m as nat / bitp((i4 + 1) as nat) == (m as nat / bitp(i4 as nat)) / 2);
            lemma_rank_monotone(m, i4 + 1, 8);
            assert(w as nat * (rank_of(m, i4 as int) + 1) == w as nat * rank_of(m, i4 as int)
                + w as nat) by (nonlinear_arith);
            assert(w as nat * rank_of(m, i4 as int) <= w as nat * rank_of(m, 8))
                by (nonlinear_arith)
                requires
                    rank_of(m, i4 as int) <= rank_of(m, 8),
            ;
        }
        let set: bool = mm2 % 2 == 1;
        if set {
            proof {
                assert(bit_of(m, i4 as nat));
                assert(rank_of(m, i4 + 1) == rank_of(m, i4 as int) + 1);
                lemma_rank_monotone(m, i4 + 1, 8);
                assert(w as nat * (rank_of(m, i4 as int) + 1) <= w as nat * rank_of(m, 8))
                    by (nonlinear_arith)
                    requires
                        rank_of(m, i4 as int) + 1 <= rank_of(m, 8),
                ;
            }
            let v: u64 = match read_nibbles(bytes, w, nib_off) {
                Ok(v) => v,
                Err(_) => {
                    return Err(CodecError::TruncatedInput);
                },
            };
            if i4 < take {
                proof {
                    assert(fp.push(v).take(i4 + 1) =~= fp.take(i4 as int).push(v));
                    assert(fp.take(i4 as int) =~= fp);
                    assert(fp.push(v).take(i4 + 1) =~= fp.push(v));
                    assert(out0 + fp.take(i4 as int) + seq![v] =~= out0 + fp.push(v));
                }
                out.push(v);
            } else {
                proof {
                    assert(fp.push(v).take(take as int) =~= fp.take(take as int));
                }
            }
            proof {
                fp = fp.push(v);
            }
            nib_off = nib_off + w;
        } else {
            let z: u64 = 0;
            if i4 < take {
                proof {
                    assert(fp.push(z).take(i4 + 1) =~= fp.push(z));
                    assert(out0 + fp.take(i4 as int) + seq![z] =~= out0 + fp.push(z));
                }
                out.push(z);
            } else {
                proof {
                    assert(fp.push(z).take(take as int) =~= fp.take(take as int));
                }
            }
            proof {
                fp = fp.push(z);
            }
        }
        proof {
            assert((fp.take(fp.len() - 1) + seq![fp.last()]) + group_vals(
                bytes@,
                m,
                w as nat,
                nib_off as int,
                i4 + 1,
            ) =~= fp.take(fp.len() - 1) + (seq![fp.last()] + group_vals(
                bytes@,
                m,
                w as nat,
                nib_off as int,
                i4 + 1,
            )));
            assert(fp.take(fp.len() - 1) + seq![fp.last()] =~= fp);
        }
        mm2 = mm2 / 2;
        i4 = i4 + 1;
    }
    proof {
        assert(group_vals(bytes@, m, w as nat, nib_off as int, 8) =~= Seq::<u64>::empty());
        assert(fp + Seq::<u64>::empty() =~= fp);
        assert(fp == gvals);
    }
    Ok(pos + 2 + pb)
}

/// Decode a whole stream at byte position `pos`, appending the declared
/// count of raw values to `out` and returning the position just past the
/// last group read. On any error `out` is left untouched: no partial
/// output escapes.
pub fn unpack_raw(bytes: &Vec<u8>, pos: usize, out: &mut Vec<u64>) -> (r: Result<
    usize,
    CodecError,
>)
    requires
        pos <= bytes@.len(),
        bytes@.len() < usize::MAX / 2,
    ensures
        match spec_unpack_stream(bytes@, pos as int) {
            Ok(p) => r == Ok::<usize, CodecError>(p.1 as usize) && final(out)@ == old(out)@ + p.0
                && pos as int <= p.1 <= bytes@.len(),
            Err(e) => r == Err::<usize, CodecError>(e) && final(out)@ == old(out)@,
        },
{
    let len: usize = bytes.len();
    if len - pos < 4 {
        return Err(CodecError::TruncatedInput);
    }
    let n: u32 = bytes[pos] as u32 + bytes[pos + 1] as u32 * 256 + bytes[pos + 2] as u32 * 65536
        + bytes[pos + 3] as u32 * 16777216;
    proof {
        assert(n as nat == read_u32le(bytes@, pos as int));
    }
    if n == 0 {
        if len - pos > 4 {
            return Err(CodecError::InconsistentLength);
        }
        proof {
            assert(out@ + Seq::<u64>::empty() =~= out@);
        }
        return Ok(pos + 4);
    }
    if len - pos == 4 {
        return Err(CodecError::InconsistentLength);
    }
    let ghost g0: Result<(Seq<u64>, int), CodecError> = spec_unpack_groups(
        bytes@,
        pos + 4,
        n as nat,
    );
    let mut tmp: Vec<u64> = Vec::new();
    let mut cur: usize = pos + 4;
    let mut remaining: u32 = n;
    proof {
        if let Ok(p) = g0 {
            assert(Seq::<u64>::empty() + p.0 =~= p.0);
        }
    }
    while remaining > 0
        invariant
            pos + 4 <= cur <= bytes@.len(),
            pos + 4 < bytes@.len(),
            bytes@.len() < usize::MAX / 2,
            n as nat == read_u32le(bytes@, pos as int),
            n > 0,
            g0 == spec_unpack_groups(bytes@, pos + 4, n as nat),
            spec_unpack_stream(bytes@, pos as int) == g0,
            (match spec_unpack_groups(bytes@, cur as int, remaining as nat) {
                Ok(p) => g0 == Ok::<(Seq<u64>, int), CodecError>((tmp@ + p.0, p.1)),
                Err(e) => g0 == Err::<(Seq<u64>, int), CodecError>(e),
            }),
        decreases remaining,
    {
        let take: usize = if remaining >= 8 {
            8
        } else {
            remaining as usize
        };
        let ghost pre: Seq<u64> = tmp@;
        let step = unpack_group_raw(bytes, cur, take, &mut tmp);
        match step {
            Ok(p2) => {
                proof {
                    let g = spec_unpack_group(bytes@, cur as int).unwrap();
                    let inner = spec_unpack_groups(bytes@, g.1, (remaining - take) as nat);
                    if let Ok(q) = inner {
                        assert((pre + g.0.take(take as int)) + q.0 =~= pre + (g.0.take(
                            take as int,
                        ) + q.0));
                    }
                }
                cur = p2;
                remaining = remaining - take as u32;
            },
            Err(e) => {
                return Err(e);
            },
        }
    }
    proof {
        assert(spec_unpack_groups(bytes@, cur as int, 0nat) == Ok::<(Seq<u64>, int), CodecError>(
            (Seq::<u64>::empty(), cur as int),
        ));
        assert(tmp@ + Seq::<u64>::empty() =~= tmp@);
    }
    out.append(&mut tmp);
    Ok(cur)
}

/// Decode a whole stream from the start of `encoded`, delivering each raw
/// value, in order, to `sink`, and returning how many bytes were read.
/// On any error the sink is left exactly as it was: no partial output.
pub fn unpack<S: Sink>(encoded: &Vec<u8>, sink: &mut S) -> (r: Result<usize, CodecError>)
    requires
        old(sink).inv(),
        encoded@.len() < usize::MAX / 2,
    ensures
        match spec_unpack_stream(encoded@, 0) {
            Ok(p) => r == Ok::<usize, CodecError>(p.1 as usize) && 0 <= p.1 <= encoded@.len()
                && final(sink).inv()
                && final(sink).out() == old(sink).out() + sink_outs::<S>(old(sink).basis(), p.0)
                && final(sink).basis() == basis_after::<S>(old(sink).basis(), p.0),
            Err(e) => r == Err::<usize, CodecError>(e) && *final(sink) == *old(sink),
        },
{
    let mut tmp: Vec<u64> = Vec::new();
    match unpack_raw(encoded, 0, &mut tmp) {
        Ok(consumed) => {
            feed_all(sink, &tmp);
            Ok(consumed)
        },
        Err(e) => Err(e),
    }
}

proof fn lemma_rank_le(m: u8, i: int)
    requires
        0 <= i,
    ensures
        rank_of(m, i) <= i,
    decreases i,
{
    if i > 0 {
        lemma_rank_le(m, i - 1);
    }
}

/// One group's wire form is at least the two header bytes and at most
/// sixty-six bytes: header plus eight values of sixteen nibbles.
proof fn lemma_group_bytes_len(vals: Seq<u64>)
    requires
        vals.len() == 8,
    ensures
        2 <= group_bytes(vals).len() <= 66,
{
    lemma_group_header(vals);
    let w = group_width(vals);
    let m = mask_of(vals) as u8;
    lemma_rank_le(m, 8);
    assert(w * rank_of(m, 8) <= 128) by (nonlinear_arith)
        requires
            w <= 16,
            rank_of(m, 8) <= 8,
    ;
    lemma_div_is_ordered((w * rank_of(m, 8) + 1) as int, 129, 2);
}

proof fn lemma_groups_len_bound(vals: Seq<u64>)
    ensures
        groups_bytes(vals).len() <= 66 + 9 * vals.len(),
    decreases vals.len(),
{
    if vals.len() == 0 {
    } else if vals.len() <= 8 {
        lemma_group_bytes_len(pad8(vals));
    } else {
        lemma_group_bytes_len(pad8(vals.take(8)));
        lemma_groups_len_bound(vals.skip(8));
    }
}

/// The wire form of a nonempty sequence takes at most seventy-nine bytes
/// per value.
pub proof fn lemma_stream_len_bound(vals: Seq<u64>)
    requires
        vals.len() >= 1,
    ensures
        stream_bytes(vals).len() <= 79 * vals.len(),
{
    lemma_groups_len_bound(vals);
    assert(70 + 9 * vals.len() <= 79 * vals.len()) by (nonlinear_arith)
        requires
            vals.len() >= 1,
    ;
}

proof fn lemma_rank_monotone(m: u8, a: int, b: int)
    requires
        a <= b,
    ensures
        rank_of(m, a) <= rank_of(m, b),
    decreases b - a,
{
    if a < b {
        lemma_rank_monotone(m, a, b - 1);
    }
}

proof fn lemma_bitp_monotone(a: nat, b: nat)
    requires
        a <= b,
    ensures
        bitp(a) <= bitp(b),
    decreases b,
{
    if a < b && b > 0 {
        lemma_bitp_monotone(a, (b - 1) as nat);
        lemma_bitp_pos((b - 1) as nat);
    }
}

proof fn lemma_count_nz_bound(vals: Seq<u64>, i: int)
    requires
        0 <= i <= 8,
    ensures
        count_nz(vals, i) <= 8 - i,
    decreases 8 - i,
{
    if i < 8 {
        lemma_count_nz_bound(vals, i + 1);
    }
}

/// The header facts of one group's wire form: width and mask fit their
/// bytes, the mask mirrors the zero pattern, and the payload length is
/// what the mask and width announce.
proof fn lemma_group_header(vals: Seq<u64>)
    requires
        vals.len() == 8,
    ensures
        group_width(vals) <= 16,
        mask_of(vals) < 256,
        forall|i: int|
            0 <= i < 8 ==> (bit_of(mask_of(vals) as u8, i as nat) <==> vals[i] != 0),
        pack_nibs(slots_nibs(vals, group_width(vals), 0)).len() == (group_width(vals) * rank_of(
            mask_of(vals) as u8,
            8,
        ) + 1) / 2,
        group_bytes(vals).len() == 2 + pack_nibs(slots_nibs(vals, group_width(vals), 0)).len(),
        forall|k: int| 0 <= k < 8 ==> nib_width(vals[k] as nat) <= group_width(vals),
{
    let w = group_width(vals);
    let mk = mask_of(vals);
    let m = mk as u8;
    lemma_width_upto(vals, 8);
    if w > 0 {
        let i = choose|i: int| 0 <= i < 8 && vals[i] != 0 && nib_width(vals[i] as nat) == w;
        lemma_nib_width_le_16(vals[i]);
    }
    lemma_mask_upto_bound(vals, 8);
    lemma_bitp_values();
    assert forall|i: int| 0 <= i < 8 implies (bit_of(m, i as nat) <==> vals[i] != 0) by {
        lemma_mask_bit(vals, i, 8);
        lemma_bitp_pos(i as nat);
    };
    lemma_rank_counts_nz(vals, m, 0);
    lemma_slots_nibs_parts(vals, w, 0);
    lemma_pack_nibs_len(slots_nibs(vals, w, 0));
}

/// The slots walked by the decoder are the slots the encoder packed, when
/// the payload nibbles in `bytes` agree with the group's payload.
proof fn lemma_group_vals_matches(bytes: Seq<u8>, m: u8, w: nat, vals: Seq<u64>, base: int, i: int)
    requires
        vals.len() == 8,
        0 <= i <= 8,
        forall|k: int| 0 <= k < 8 ==> (bit_of(m, k as nat) <==> vals[k] != 0),
        forall|k: int| 0 <= k < 8 ==> nib_width(vals[k] as nat) <= w,
        forall|j: int|
            0 <= j < slots_nibs(vals, w, i).len() ==> #[trigger] nibble_at(bytes, base + j)
                == slots_nibs(vals, w, i)[j],
    ensures
        group_vals(bytes, m, w, base, i) == vals.skip(i),
    decreases 8 - i,
{
    if i == 8 {
        assert(vals.skip(8) =~= Seq::<u64>::empty());
    } else {
        let head: Seq<u8> = if vals[i] == 0 {
            Seq::empty()
        } else {
            nib_seq(vals[i], w)
        };
        let tail = slots_nibs(vals, w, i + 1);
        assert(slots_nibs(vals, w, i) == head + tail);
        assert forall|j: int| 0 <= j < tail.len() implies #[trigger] nibble_at(
            bytes,
            (base + head.len()) + j,
        ) == tail[j] by {
            assert(slots_nibs(vals, w, i)[head.len() + j] == tail[j]);
            assert(nibble_at(bytes, base + (head.len() + j)) == slots_nibs(vals, w, i)[head.len()
                + j]);
        };
        if vals[i] != 0 {
            assert forall|j: int| 0 <= j < w implies nibble_at(bytes, base + j) == nib_seq(
                vals[i],
                w,
            )[j] by {
                assert(slots_nibs(vals, w, i)[j] == head[j]);
            };
            assert((vals[i] as nat) < pow16(w)) by {
                lemma_nib_width_minimal(vals[i] as nat);
                lemma_pow16_increases(nib_width(vals[i] as nat), w);
            };
            lemma_val_of_nib_seq(bytes, base, vals[i], w);
            lemma_group_vals_matches(bytes, m, w, vals, base + w, i + 1);
            assert(group_vals(bytes, m, w, base, i) =~= seq![vals[i]] + vals.skip(i + 1));
            assert(seq![vals[i]] + vals.skip(i + 1) =~= vals.skip(i));
        } else {
            lemma_group_vals_matches(bytes, m, w, vals, base, i + 1);
            assert(group_vals(bytes, m, w, base, i) =~= seq![0u64] + vals.skip(i + 1));
            assert(seq![0u64] + vals.skip(i + 1) =~= vals.skip(i));
        }
    }
}

/// A group's wire form, wherever it sits in a buffer, decodes to exactly
/// the eight values it was built from.
pub proof fn lemma_group_parse(bytes: Seq<u8>, pos: int, vals: Seq<u64>)
    requires
        vals.len() == 8,
        0 <= pos,
        pos + group_bytes(vals).len() <= bytes.len(),
        bytes.subrange(pos, pos + group_bytes(vals).len()) == group_bytes(vals),
    ensures
        spec_unpack_group(bytes, pos) == Ok::<(Seq<u64>, int), CodecError>(
            (vals, pos + group_bytes(vals).len()),
        ),
{
    let w = group_width(vals);
    let mk = mask_of(vals);
    let m = mk as u8;
    let slots = slots_nibs(vals, w, 0);
    let packed = pack_nibs(slots);
    let gb = group_bytes(vals);
    lemma_group_header(vals);
    assert(bytes[pos] == gb[0]) by {
        assert(bytes.subrange(pos, pos + gb.len())[0] == bytes[pos]);
    };
    assert(bytes[pos + 1] == gb[1]) by {
        assert(bytes.subrange(pos, pos + gb.len())[1] == bytes[pos + 1]);
    };
    assert(gb[0] == w as u8);
    assert(gb[1] == m);
    assert(bytes[pos] as nat == w);
    let pb = (w * rank_of(m, 8) + 1) / 2;
    assert(packed.len() == pb);
    assert(pos + 2 + pb <= bytes.len());
    // The packed payload sits, byte for byte, at pos + 2.
    assert(bytes.subrange(pos + 2, pos + 2 + packed.len()) =~= packed) by {
        assert forall|q: int| 0 <= q < packed.len() implies bytes.subrange(
            pos + 2,
            pos + 2 + packed.len(),
        )[q] == packed[q] by {
            assert(bytes.subrange(pos, pos + gb.len())[q + 2] == bytes[pos + 2 + q]);
            assert(gb[q + 2] == packed[q]);
        };
    };
    lemma_slots_nibs_parts(vals, w, 0);
    lemma_pack_nibs_len(slots);
    assert forall|j: int| 0 <= j < slots.len() implies #[trigger] nibble_at(
        bytes,
        2 * (pos + 2) + j,
    ) == slots[j] by {
        lemma_fundamental_div_mod(slots.len() as int, 2);
        lemma_mod_bound(slots.len() as int, 2);
        assert(j < 2 * packed.len());
        lemma_nibble_at_region(bytes, pos + 2, packed, j);
        lemma_pack_nibs_at(slots, j);
    };
    lemma_group_vals_matches(bytes, m, w, vals, 2 * (pos + 2), 0);
    assert(vals.skip(0) =~= vals);
}

/// The concatenated groups of a nonempty value sequence, wherever they
/// sit, decode to exactly that sequence.
pub proof fn lemma_groups_parse(bytes: Seq<u8>, pos: int, vals: Seq<u64>)
    requires
        1 <= vals.len(),
        0 <= pos,
        pos + groups_bytes(vals).len() <= bytes.len(),
        bytes.subrange(pos, pos + groups_bytes(vals).len()) == groups_bytes(vals),
    ensures
        spec_unpack_groups(bytes, pos, vals.len()) == Ok::<(Seq<u64>, int), CodecError>(
            (vals, pos + groups_bytes(vals).len()),
        ),
    decreases vals.len(),
{
    if vals.len() <= 8 {
        let g8 = pad8(vals);
        assert(groups_bytes(vals) == group_bytes(g8));
        lemma_group_parse(bytes, pos, g8);
        let take = vals.len() as int;
        assert(g8.take(take) =~= vals);
        assert(spec_unpack_groups(bytes, pos + group_bytes(g8).len(), 0nat) == Ok::<
            (Seq<u64>, int),
            CodecError,
        >((Seq::<u64>::empty(), pos + group_bytes(g8).len())));
        assert(g8.take(take) + Seq::<u64>::empty() =~= vals);
    } else {
        let g8 = pad8(vals.take(8));
        let gb1 = group_bytes(g8);
        let rest = vals.skip(8);
        assert(groups_bytes(vals) == gb1 + groups_bytes(rest));
        assert(bytes.subrange(pos, pos + gb1.len()) =~= gb1) by {
            assert forall|q: int| 0 <= q < gb1.len() implies bytes.subrange(pos, pos + gb1.len())[q]
                == gb1[q] by {
                assert(bytes.subrange(pos, pos + groups_bytes(vals).len())[q] == bytes[pos + q]);
                assert((gb1 + groups_bytes(rest))[q] == gb1[q]);
            };
        };
        lemma_group_parse(bytes, pos, g8);
        let pos2 = pos + gb1.len();
        assert(bytes.subrange(pos2, pos2 + groups_bytes(rest).len()) =~= groups_bytes(rest)) by {
            assert forall|q: int| 0 <= q < groups_bytes(rest).len() implies bytes.subrange(
                pos2,
                pos2 + groups_bytes(rest).len(),
            )[q] == groups_bytes(rest)[q] by {
                assert(bytes.subrange(pos, pos + groups_bytes(vals).len())[gb1.len() + q]
                    == bytes[pos2 + q]);
                assert((gb1 + groups_bytes(rest))[gb1.len() + q] == groups_bytes(rest)[q]);
            };
        };
        lemma_groups_parse(bytes, pos2, rest);
        assert(g8.take(8) =~= vals.take(8));
        assert(vals.take(8) + rest =~= vals);
    }
}

/// Round trip: the wire form of any value sequence decodes to exactly
/// that sequence, consuming exactly the bytes that were written.
pub proof fn lemma_stream_round_trip(vals: Seq<u64>)
    requires
        vals.len() <= u32::MAX,
    ensures
        spec_unpack_stream(stream_bytes(vals), 0) == Ok::<(Seq<u64>, int), CodecError>(
            (vals, stream_bytes(vals).len() as int),
        ),
{
    let enc = stream_bytes(vals);
    let n = vals.len() as nat;
    let hdr = count_bytes(n);
    assert(enc[0] == hdr[0] && enc[1] == hdr[1] && enc[2] == hdr[2] && enc[3] == hdr[3]);
    assert(read_u32le(enc, 0) == n) by {
        lemma_u32le_round_trip(n);
    };
    if n == 0 {
        assert(groups_bytes(vals) == Seq::<u8>::empty());
        assert(enc.len() == 4);
        assert(vals =~= Seq::<u64>::empty());
    } else {
        assert(groups_bytes(vals).len() >= 2) by {
            if vals.len() <= 8 {
                assert(groups_bytes(vals) == group_bytes(pad8(vals)));
            } else {
                assert(groups_bytes(vals) == group_bytes(pad8(vals.take(8))) + groups_bytes(
                    vals.skip(8),
                ));
            }
        };
        assert(enc.subrange(4, 4 + groups_bytes(vals).len() as int) =~= groups_bytes(vals)) by {
            assert forall|q: int| 0 <= q < groups_bytes(vals).len() implies enc.subrange(
                4,
                4 + groups_bytes(vals).len() as int,
            )[q] == groups_bytes(vals)[q] by {
                assert(enc[4 + q] == (hdr + groups_bytes(vals))[4 + q]);
            };
        };
        lemma_groups_parse(enc, 4, vals);
    }
}

/// A stream's wire form sitting at the tail of a larger buffer decodes,
/// from its own position, to exactly the values it was built from.
pub proof fn lemma_stream_parse(bytes: Seq<u8>, pos: int, vals: Seq<u64>)
    requires
        vals.len() <= u32::MAX,
        0 <= pos,
        pos + stream_bytes(vals).len() == bytes.len(),
        bytes.subrange(pos, bytes.len() as int) == stream_bytes(vals),
    ensures
        spec_unpack_stream(bytes, pos) == Ok::<(Seq<u64>, int), CodecError>(
            (vals, bytes.len() as int),
        ),
{
    let enc = stream_bytes(vals);
    let n = vals.len() as nat;
    let hdr = count_bytes(n);
    assert forall|q: int| 0 <= q < enc.len() implies bytes[pos + q] == enc[q] by {
        assert(bytes.subrange(pos, bytes.len() as int)[q] == bytes[pos + q]);
    };
    assert(bytes[pos + 0] == enc[0] && bytes[pos + 1] == enc[1] && bytes[pos + 2] == enc[2]
        && bytes[pos + 3] == enc[3]);
    assert(bytes[pos] == hdr[0] && bytes[pos + 1] == hdr[1] && bytes[pos + 2] == hdr[2] && bytes[pos
        + 3] == hdr[3]);
    assert(read_u32le(bytes, pos) == n) by {
        lemma_u32le_round_trip(n);
    };
    if n == 0 {
        assert(groups_bytes(vals) == Seq::<u8>::empty());
        assert(enc.len() == 4);
        assert(vals =~= Seq::<u64>::empty());
    } else {
        assert(groups_bytes(vals).len() >= 2) by {
            if vals.len() <= 8 {
                assert(groups_bytes(vals) == group_bytes(pad8(vals)));
            } else {
                assert(groups_bytes(vals) == group_bytes(pad8(vals.take(8))) + groups_bytes(
                    vals.skip(8),
                ));
            }
        };
        assert(bytes.subrange(pos + 4, pos + 4 + groups_bytes(vals).len() as int) =~= groups_bytes(
            vals,
        )) by {
            assert forall|q: int| 0 <= q < groups_bytes(vals).len() implies bytes.subrange(
                pos + 4,
                pos + 4 + groups_bytes(vals).len() as int,
            )[q] == groups_bytes(vals)[q] by {
                assert(bytes[pos + (4 + q)] == enc[4 + q]);
                assert(enc[4 + q] == (hdr + groups_bytes(vals))[4 + q]);
            };
        };
        lemma_groups_parse(bytes, pos + 4, vals);
    }
}

/// Recomposing the four little-endian header bytes of a count below
/// `2^32` yields the count.
proof fn lemma_u32le_round_trip(n: nat)
    requires
        n <= u32::MAX,
    ensures
        read_u32le(count_bytes(n), 0) == n,
{
    let b = count_bytes(n);
    lemma_fundamental_div_mod(n as int, 256);
    lemma_mod_bound(n as int, 256);
    lemma_fundamental_div_mod(n as int / 256, 256);
    lemma_mod_bound(n as int / 256, 256);
    lemma_div_denominator(n as int, 256, 256);
    assert(n as int / 256 / 256 == n as int / 65536);
    lemma_fundamental_div_mod(n as int / 65536, 256);
    lemma_mod_bound(n as int / 65536, 256);
    lemma_div_denominator(n as int, 65536, 256);
    assert(n as int / 65536 / 256 == n as int / 16777216);
    assert(n as int / 16777216 < 256) by {
        lemma_multiply_divide_lt(n as int, 16777216, 256);
    };
    lemma_small_mod((n as int / 16777216) as nat, 256nat);
    lemma_div_pos_is_pos(n as int, 256);
    lemma_div_pos_is_pos(n as int / 256, 256);
    lemma_div_pos_is_pos(n as int / 65536, 256);
}

proof fn lemma_zero_prefix_parts(vals: Seq<u64>, k: int)
    requires
        0 <= k <= 8,
        forall|i: int| 0 <= i < 8 ==> vals[i] == 0,
    ensures
        width_upto(vals, k) == 0,
        mask_upto(vals, k) == 0,
    decreases k,
{
    if k > 0 {
        lemma_zero_prefix_parts(vals, k - 1);
        assert(nib_width(vals[k - 1] as nat) == 0);
    }
}

proof fn lemma_zero_slots_nibs(vals: Seq<u64>, w: nat, i: int)
    requires
        0 <= i <= 8,
        forall|k: int| 0 <= k < 8 ==> vals[k] == 0,
    ensures
        slots_nibs(vals, w, i) == Seq::<u8>::empty(),
    decreases 8 - i,
{
    if i < 8 {
        lemma_zero_slots_nibs(vals, w, i + 1);
        assert(slots_nibs(vals, w, i) =~= Seq::<u8>::empty());
    }
}

/// All-zero block: a group of eight zero values encodes to exactly two
/// bytes, a zero control byte and a zero mask, with no payload.
pub proof fn lemma_all_zero_group(vals: Seq<u64>)
    requires
        vals.len() == 8,
        forall|i: int| 0 <= i < 8 ==> vals[i] == 0,
    ensures
        group_bytes(vals) == seq![0u8, 0u8],
{
    lemma_zero_prefix_parts(vals, 8);
    lemma_zero_slots_nibs(vals, group_width(vals), 0);
    assert(pack_nibs(Seq::<u8>::empty()) == Seq::<u8>::empty());
    assert(seq![0u8, 0u8] + Seq::<u8>::empty() =~= seq![0u8, 0u8]);
}

/// Width correctness: the shared width covers every nonzero slot, is
/// attained by some nonzero slot whenever one exists, and each slot's own
/// width is minimal for its value.
pub proof fn lemma_width_correctness(vals: Seq<u64>)
    requires
        vals.len() == 8,
    ensures
        forall|i: int|
            0 <= i < 8 && vals[i] != 0 ==> (vals[i] as nat) < pow16(group_width(vals)),
        forall|i: int|
            0 <= i < 8 && vals[i] != 0 ==> pow16((nib_width(vals[i] as nat) - 1) as nat)
                <= vals[i] as nat,
        group_width(vals) > 0 ==> exists|i: int|
            0 <= i < 8 && vals[i] != 0 && nib_width(vals[i] as nat) == group_width(vals),
        group_width(vals) == 0 <==> (forall|i: int| 0 <= i < 8 ==> vals[i] == 0),
{
    lemma_width_upto(vals, 8);
    assert forall|i: int| 0 <= i < 8 && vals[i] != 0 implies (vals[i] as nat) < pow16(
        group_width(vals),
    ) && pow16((nib_width(vals[i] as nat) - 1) as nat) <= vals[i] as nat by {
        lemma_nib_width_minimal(vals[i] as nat);
        lemma_pow16_increases(nib_width(vals[i] as nat), group_width(vals));
    };
    if group_width(vals) == 0 {
        assert forall|i: int| 0 <= i < 8 implies vals[i] == 0 by {
            if vals[i] != 0 {
                assert(nib_width(vals[i] as nat) > 0);
            }
        };
    } else {
        lemma_zero_prefix_parts_converse(vals);
    }
}

proof fn lemma_zero_prefix_parts_converse(vals: Seq<u64>)
    requires
        vals.len() == 8,
        group_width(vals) > 0,
    ensures
        exists|i: int| 0 <= i < 8 && vals[i] != 0,
{
    if forall|i: int| 0 <= i < 8 ==> vals[i] == 0 {
        lemma_zero_prefix_parts(vals, 8);
    }
}

/// Round trip through a delta sink: the wire form of the wrapping delta
/// stream of any value sequence decodes, through a delta sink seeded at
/// zero, to exactly that sequence.
pub proof fn lemma_delta_round_trip(vals: Seq<u64>)
    requires
        vals.len() <= u32::MAX,
    ensures
        spec_unpack_stream(stream_bytes(wrap_deltas(vals)), 0) == Ok::<(Seq<u64>, int), CodecError>(
            (wrap_deltas(vals), stream_bytes(wrap_deltas(vals)).len() as int),
        ),
        sink_outs::<DeltaSink>(0u64, wrap_deltas(vals)) == vals,
{
    lemma_stream_round_trip(wrap_deltas(vals));
    lemma_delta_sink_reconstructs(vals);
}

proof fn lemma_groups_truncated(full: Seq<u8>, t: int, pos: int, vals: Seq<u64>)
    requires
        1 <= vals.len(),
        0 <= pos <= t <= full.len(),
        t < pos + groups_bytes(vals).len(),
        pos + groups_bytes(vals).len() <= full.len(),
        full.subrange(pos, pos + groups_bytes(vals).len() as int) == groups_bytes(vals),
    ensures
        spec_unpack_groups(full.take(t), pos, vals.len()) == Err::<(Seq<u64>, int), CodecError>(
            CodecError::TruncatedInput,
        ),
    decreases vals.len(),
{
    let cut = full.take(t);
    let glen = groups_bytes(vals).len() as int;
    let g8 = pad8(
        if vals.len() <= 8 {
            vals
        } else {
            vals.take(8)
        },
    );
    let gb1 = group_bytes(g8);
    lemma_group_header(g8);
    assert(groups_bytes(vals).len() >= gb1.len()) by {
        if vals.len() > 8 {
            assert(groups_bytes(vals) == gb1 + groups_bytes(vals.skip(8)));
        }
    };
    if t < pos + 2 {
        assert(spec_unpack_group(cut, pos) == Err::<(Seq<u64>, int), CodecError>(
            CodecError::TruncatedInput,
        ));
    } else if t < pos + gb1.len() {
        assert(cut[pos] == full[pos]);
        assert(cut[pos + 1] == full[pos + 1]);
        assert(full[pos] == gb1[0] && full[pos + 1] == gb1[1]) by {
            assert(full.subrange(pos, pos + glen)[0] == full[pos]);
            assert(full.subrange(pos, pos + glen)[1] == full[pos + 1]);
            if vals.len() > 8 {
                assert(groups_bytes(vals) == gb1 + groups_bytes(vals.skip(8)));
                assert((gb1 + groups_bytes(vals.skip(8)))[0] == gb1[0]);
                assert((gb1 + groups_bytes(vals.skip(8)))[1] == gb1[1]);
            }
        };
        let w = group_width(g8);
        let m = mask_of(g8) as u8;
        lemma_pack_nibs_len(slots_nibs(g8, w, 0));
        assert(cut[pos] as nat == w);
        assert(pos + 2 + (w * rank_of(m, 8) + 1) / 2 == pos + gb1.len());
        assert(spec_unpack_group(cut, pos) == Err::<(Seq<u64>, int), CodecError>(
            CodecError::TruncatedInput,
        ));
    } else {
        // The first group is wholly inside the cut; a later group is cut.
        assert(vals.len() > 8) by {
            if vals.len() <= 8 {
                assert(groups_bytes(vals) == gb1);
            }
        };
        assert(groups_bytes(vals) == gb1 + groups_bytes(vals.skip(8)));
        assert(cut.subrange(pos, pos + gb1.len() as int) =~= gb1) by {
            assert forall|q: int| 0 <= q < gb1.len() implies cut.subrange(
                pos,
                pos + gb1.len() as int,
            )[q] == gb1[q] by {
                assert(full.subrange(pos, pos + glen)[q] == full[pos + q]);
                assert((gb1 + groups_bytes(vals.skip(8)))[q] == gb1[q]);
            };
        };
        lemma_group_parse(cut, pos, g8);
        let pos2 = pos + gb1.len() as int;
        assert(full.subrange(pos2, pos2 + groups_bytes(vals.skip(8)).len() as int)
            =~= groups_bytes(vals.skip(8))) by {
            assert forall|q: int| 0 <= q < groups_bytes(vals.skip(8)).len() implies full.subrange(
                pos2,
                pos2 + groups_bytes(vals.skip(8)).len() as int,
            )[q] == groups_bytes(vals.skip(8))[q] by {
                assert(full.subrange(pos, pos + glen)[gb1.len() + q] == full[pos2 + q]);
                assert((gb1 + groups_bytes(vals.skip(8)))[gb1.len() + q] == groups_bytes(
                    vals.skip(8),
                )[q]);
            };
        };
        lemma_groups_truncated(full, t, pos2, vals.skip(8));
    }
}

/// Truncation safety: any strict prefix of a stream's wire form fails to
/// decode. A prefix cut inside the header or inside the groups reports
/// truncation; the one cut exactly after the header of a nonempty stream
/// reports an inconsistent length, since a nonzero declared count then
/// has no bytes at all behind it.
pub proof fn lemma_truncation_safety(vals: Seq<u64>, t: int)
    requires
        vals.len() <= u32::MAX,
        0 <= t < stream_bytes(vals).len(),
    ensures
        t != 4 ==> spec_unpack_stream(stream_bytes(vals).take(t), 0) == Err::<
            (Seq<u64>, int),
            CodecError,
        >(CodecError::TruncatedInput),
        t == 4 ==> spec_unpack_stream(stream_bytes(vals).take(t), 0) == Err::<
            (Seq<u64>, int),
            CodecError,
        >(CodecError::InconsistentLength),
{
    let enc = stream_bytes(vals);
    let cut = enc.take(t);
    let n = vals.len() as nat;
    let hdr = count_bytes(n);
    if t < 4 {
        assert(spec_unpack_stream(cut, 0) == Err::<(Seq<u64>, int), CodecError>(
            CodecError::TruncatedInput,
        ));
    } else {
        assert(cut[0] == hdr[0] && cut[1] == hdr[1] && cut[2] == hdr[2] && cut[3] == hdr[3]);
        assert(read_u32le(cut, 0) == n) by {
            lemma_u32le_round_trip(n);
        };
        assert(n > 0) by {
            if n == 0 {
                assert(groups_bytes(vals) == Seq::<u8>::empty());
                assert(enc.len() == 4);
            }
        };
        if t == 4 {
        } else {
            assert(enc.subrange(4, 4 + groups_bytes(vals).len() as int) =~= groups_bytes(vals))
                by {
                assert forall|q: int| 0 <= q < groups_bytes(vals).len() implies enc.subrange(
                    4,
                    4 + groups_bytes(vals).len() as int,
                )[q] == groups_bytes(vals)[q] by {
                    assert(enc[4 + q] == (hdr + groups_bytes(vals))[4 + q]);
                };
            };
            lemma_groups_truncated(enc, t, 4, vals);
        }
    }
}

/// A nibble read inside an embedded byte region equals the read in the
/// region itself, two nibble positions per byte of lead-in.
pub proof fn lemma_nibble_at_region(bytes: Seq<u8>, a: int, sub: Seq<u8>, j: int)
    requires
        0 <= a,
        0 <= j < 2 * sub.len(),
        a + sub.len() <= bytes.len(),
        bytes.subrange(a, a + sub.len()) == sub,
    ensures
        nibble_at(bytes, 2 * a + j) == nibble_at(sub, j),
{
    lemma_fundamental_div_mod(j, 2);
    lemma_mod_bound(j, 2);
    lemma_hoist_over_denominator(j, a, 2);
    assert((2 * a + j) / 2 == a + j / 2);
    lemma_mod_multiples_vanish(a, j, 2);
    assert((2 * a + j) % 2 == j % 2);
    assert(bytes[a + j / 2] == sub[j / 2]);
}

} // verus!
