//! Bit and nibble primitives: width computation, zig-zag transform, and
//! packed reads and writes at nibble-granular offsets.

use vstd::prelude::*;
use vstd::arithmetic::div_mod::*;
use crate::CodecError;

verus! {

/// `16^e`, the number of values a row of `e` nibbles can hold.
pub open spec fn pow16(e: nat) -> nat
    decreases e,
{
    if e == 0 {
        1
    } else {
        16 * pow16((e - 1) as nat)
    }
}

/// Width of `v` in whole nibbles: the smallest `w` with `v < 16^w`.
pub open spec fn nib_width(v: nat) -> nat
    decreases v,
{
    if v == 0 {
        0
    } else {
        1 + nib_width(v / 16)
    }
}

/// The nibble at position `p` of a byte string viewed as a nibble string:
/// the low nibble of each byte comes first.
pub open spec fn nibble_at(bytes: Seq<u8>, p: int) -> u8 {
    if p % 2 == 0 {
        (bytes[p / 2] % 16) as u8
    } else {
        (bytes[p / 2] / 16) as u8
    }
}

/// The value held by `w` nibbles starting at nibble position `p`,
/// least-significant nibble first.
pub open spec fn val_of_nibs(bytes: Seq<u8>, p: int, w: nat) -> nat
    decreases w,
{
    if w == 0 {
        0
    } else {
        (nibble_at(bytes, p) + 16 * val_of_nibs(bytes, p + 1, (w - 1) as nat)) as nat
    }
}

/// The `w` nibbles of `v`, least-significant first.
pub open spec fn nib_seq(v: u64, w: nat) -> Seq<u8> {
    Seq::new(w, |j: int| ((v as nat / pow16(j as nat)) % 16) as u8)
}

pub proof fn lemma_pow16_pos(e: nat)
    ensures
        pow16(e) >= 1,
    decreases e,
{
    if e > 0 {
        lemma_pow16_pos((e - 1) as nat);
    }
}

pub proof fn lemma_pow16_increases(a: nat, b: nat)
    requires
        a <= b,
    ensures
        pow16(a) <= pow16(b),
    decreases b,
{
    if a < b && b > 0 {
        lemma_pow16_increases(a, (b - 1) as nat);
        lemma_pow16_pos((b - 1) as nat);
    }
}

/// The first seventeen nibble powers, spelled out for bounds reasoning.
pub proof fn lemma_pow16_values()
    ensures
        pow16(0) == 1,
        pow16(1) == 0x10,
        pow16(2) == 0x100,
        pow16(3) == 0x1000,
        pow16(4) == 0x10000,
        pow16(5) == 0x100000,
        pow16(6) == 0x1000000,
        pow16(7) == 0x10000000,
        pow16(8) == 0x100000000,
        pow16(9) == 0x1000000000,
        pow16(10) == 0x10000000000,
        pow16(11) == 0x100000000000,
        pow16(12) == 0x1000000000000,
        pow16(13) == 0x10000000000000,
        pow16(14) == 0x100000000000000,
        pow16(15) == 0x1000000000000000,
        pow16(16) == 0x10000000000000000,
{
    assert(pow16(1) == 16 * pow16(0));
    assert(pow16(2) == 16 * pow16(1));
    assert(pow16(3) == 16 * pow16(2));
    assert(pow16(4) == 16 * pow16(3));
    assert(pow16(5) == 16 * pow16(4));
    assert(pow16(6) == 16 * pow16(5));
    assert(pow16(7) == 16 * pow16(6));
    assert(pow16(8) == 16 * pow16(7));
    assert(pow16(9) == 16 * pow16(8));
    assert(pow16(10) == 16 * pow16(9));
    assert(pow16(11) == 16 * pow16(10));
    assert(pow16(12) == 16 * pow16(11));
    assert(pow16(13) == 16 * pow16(12));
    assert(pow16(14) == 16 * pow16(13));
    assert(pow16(15) == 16 * pow16(14));
    assert(pow16(16) == 16 * pow16(15));
}

/// Every `u64` fits in sixteen nibbles.
pub proof fn lemma_nib_width_le_16(v: u64)
    ensures
        nib_width(v as nat) <= 16,
{
    lemma_nib_width_minimal(v as nat);
    lemma_pow16_values();
    if nib_width(v as nat) > 16 {
        lemma_pow16_increases(17, nib_width(v as nat));
        assert(pow16(17) == 16 * pow16(16));
    }
}

/// `nib_width` is exact: `v` fits in `nib_width(v)` nibbles and, when
/// nonzero, does not fit in one nibble fewer.
pub proof fn lemma_nib_width_minimal(v: nat)
    ensures
        v < pow16(nib_width(v)),
        v > 0 ==> pow16((nib_width(v) - 1) as nat) <= v,
    decreases v,
{
    if v > 0 {
        lemma_div_decreases(v as int, 16);
        lemma_nib_width_minimal(v / 16);
        let w = nib_width(v);
        assert(w == 1 + nib_width(v / 16));
        // v < 16 * pow16(w - 1) from v / 16 < pow16(w - 1)
        lemma_fundamental_div_mod(v as int, 16);
        lemma_mod_bound(v as int, 16);
        if v / 16 > 0 {
            assert(pow16((w - 2) as nat) <= v / 16);
            assert(pow16((w - 1) as nat) == 16 * pow16((w - 2) as nat));
        } else {
            lemma_pow16_pos((w - 1) as nat);
            assert(pow16((w - 1) as nat) == 1);
        }
    }
}

/// A row of nibbles is bounded by the corresponding nibble power.
pub proof fn lemma_val_of_nibs_bound(bytes: Seq<u8>, p: int, w: nat)
    ensures
        val_of_nibs(bytes, p, w) < pow16(w),
    decreases w,
{
    if w == 0 {
    } else {
        lemma_val_of_nibs_bound(bytes, p + 1, (w - 1) as nat);
        let rest = val_of_nibs(bytes, p + 1, (w - 1) as nat);
        let b = bytes[p / 2];
        assert(nibble_at(bytes, p) <= 15) by {
            lemma_mod_bound(b as int, 16);
            lemma_div_nonincreasing(b as int, 16);
            if p % 2 != 0 {
                assert(b / 16 <= 255int / 16) by {
                    lemma_div_is_ordered(b as int, 255int, 16);
                };
            }
        };
        assert(pow16(w) == 16 * pow16((w - 1) as nat));
    }
}

/// Reading back the nibbles of `v` recovers `v`.
pub proof fn lemma_val_of_nib_seq(bytes: Seq<u8>, p: int, v: u64, w: nat)
    requires
        (v as nat) < pow16(w),
        forall|j: int| 0 <= j < w ==> nibble_at(bytes, p + j) == nib_seq(v, w)[j],
    ensures
        val_of_nibs(bytes, p, w) == v,
    decreases w,
{
    if w == 0 {
    } else {
        let head = nib_seq(v, w)[0];
        assert(pow16(0) == 1);
        lemma_div_basics_2(v as int);
        assert(v as nat / pow16(0) == v as nat);
        assert(head == (v as nat % 16) as u8);
        let v2: u64 = v / 16;
        // The tail nibbles of v are the nibbles of v / 16.
        assert forall|j: int| 0 <= j < (w - 1) as nat implies #[trigger] nibble_at(bytes, p + 1 + j)
            == nib_seq(v2, (w - 1) as nat)[j] by {
            assert(nibble_at(bytes, p + (j + 1)) == nib_seq(v, w)[j + 1]);
            lemma_pow16_pos(j as nat);
            lemma_div_denominator(v as int, 16, pow16(j as nat) as int);
            assert(pow16((j + 1) as nat) == 16 * pow16(j as nat));
            assert(v2 as nat / pow16(j as nat) == v as nat / pow16((j + 1) as nat));
        };
        assert((v2 as nat) < pow16((w - 1) as nat)) by {
            lemma_pow16_pos((w - 1) as nat);
            assert(pow16(w) == 16 * pow16((w - 1) as nat));
            lemma_multiply_divide_lt(v as int, 16, pow16((w - 1) as nat) as int);
        };
        lemma_val_of_nib_seq(bytes, p + 1, v2, (w - 1) as nat);
        lemma_fundamental_div_mod(v as int, 16);
    }
}

/// Smallest multiple of four bits that `v` fits in; zero maps to zero.
pub fn bit_width(v: u64) -> (r: u32)
    ensures
        r == 4 * nib_width(v as nat),
{
    let mut x: u64 = v;
    let mut w: u32 = 0;
    proof {
        lemma_nib_width_le_16(v);
    }
    while x > 0
        invariant
            4 * nib_width(v as nat) == w + 4 * nib_width(x as nat),
            nib_width(v as nat) <= 16,
            w <= 64,
        decreases x,
    {
        proof {
            lemma_div_decreases(x as int, 16);
            lemma_nib_width_le_16(x);
        }
        x = x / 16;
        w = w + 4;
    }
    w
}

/// Unpack `width` contiguous nibbles starting at nibble offset `nib_off`
/// of `bytes`, least-significant nibble first. Fails, reading nothing out
/// of bounds, when fewer than `width` nibbles remain.
pub fn read_nibbles(bytes: &Vec<u8>, width: usize, nib_off: usize) -> (r: Result<u64, CodecError>)
    requires
        width <= 16,
        nib_off + width <= usize::MAX,
    ensures
        match r {
            Ok(v) => nib_off + width <= 2 * bytes@.len() && v as nat == val_of_nibs(
                bytes@,
                nib_off as int,
                width as nat,
            ),
            Err(e) => e == CodecError::TruncatedInput && nib_off + width > 2 * bytes@.len(),
        },
{
    let need: usize = nib_off + width;
    proof {
        lemma_fundamental_div_mod(need as int, 2);
        lemma_mod_bound(need as int, 2);
    }
    if bytes.len() < need / 2 + need % 2 {
        return Err(CodecError::TruncatedInput);
    }
    let mut acc: u64 = 0;
    let mut j: usize = width;
    while j > 0
        invariant
            j <= width,
            width <= 16,
            nib_off + width <= usize::MAX,
            nib_off + width <= 2 * bytes@.len(),
            acc as nat == val_of_nibs(bytes@, (nib_off + j) as int, (width - j) as nat),
        decreases j,
    {
        j = j - 1;
        let p: usize = nib_off + j;
        proof {
            lemma_fundamental_div_mod(p as int, 2);
            lemma_mod_bound(p as int, 2);
            assert(p / 2 < bytes@.len());
        }
        let b: u8 = bytes[p / 2];
        let nib: u8 = if p % 2 == 0 {
            b % 16
        } else {
            b / 16
        };
        proof {
            assert(nib == nibble_at(bytes@, p as int));
            lemma_val_of_nibs_bound(bytes@, p + 1, (width - j - 1) as nat);
            lemma_pow16_increases((width - j - 1) as nat, 15);
            lemma_pow16_values();
            assert(acc < 0x1000000000000000);
            assert(nib <= 15) by {
                lemma_mod_bound(b as int, 16);
                if p % 2 != 0 {
                    lemma_div_is_ordered(b as int, 255int, 16);
                    assert(255int / 16 == 15) by {
                        lemma_fundamental_div_mod(255int, 16);
                        lemma_mod_bound(255int, 16);
                    };
                }
            };
        }
        acc = acc * 16 + nib as u64;
    }
    Ok(acc)
}

/// Pack `value` into `width` contiguous nibbles starting at nibble offset
/// `nib_off` of `dest`, least-significant nibble first; nibbles outside
/// that window keep their contents. Fails, writing nothing, when fewer
/// than `width` nibbles remain.
pub fn write_nibbles(
    dest: &mut Vec<u8>,
    value: u64,
    width: usize,
    nib_off: usize,
) -> (r: Result<(), CodecError>)
    requires
        width <= 16,
        nib_off + width <= usize::MAX,
        (value as nat) < pow16(width as nat),
    ensures
        match r {
            Ok(()) => {
                &&& nib_off + width <= 2 * old(dest)@.len()
                &&& final(dest)@.len() == old(dest)@.len()
                &&& forall|j: int|
                    0 <= j < width ==> nibble_at(final(dest)@, nib_off + j) == nib_seq(
                        value,
                        width as nat,
                    )[j]
                &&& forall|q: int|
                    0 <= q < 2 * old(dest)@.len() && !(nib_off <= q < nib_off + width)
                        ==> nibble_at(final(dest)@, q) == nibble_at(old(dest)@, q)
                &&& val_of_nibs(final(dest)@, nib_off as int, width as nat) == value
            },
            Err(e) => {
                &&& e == CodecError::TruncatedInput
                &&& nib_off + width > 2 * old(dest)@.len()
                &&& final(dest)@ == old(dest)@
            },
        },
{
    let need: usize = nib_off + width;
    proof {
        lemma_fundamental_div_mod(need as int, 2);
        lemma_mod_bound(need as int, 2);
    }
    if dest.len() < need / 2 + need % 2 {
        return Err(CodecError::TruncatedInput);
    }
    let ghost orig: Seq<u8> = dest@;
    let mut cur: u64 = value;
    let mut j: usize = 0;
    proof {
        assert(pow16(0) == 1);
        lemma_div_basics_2(value as int);
    }
    while j < width
        invariant
            j <= width,
            width <= 16,
            nib_off + width <= usize::MAX,
            nib_off + width <= 2 * dest@.len(),
            dest@.len() == orig.len(),
            cur as nat == value as nat / pow16(j as nat),
            (value as nat) < pow16(width as nat),
            forall|k: int|
                0 <= k < j ==> nibble_at(dest@, nib_off + k) == nib_seq(value, width as nat)[k],
            forall|q: int|
                0 <= q < 2 * orig.len() && !(nib_off <= q < nib_off + j) ==> nibble_at(dest@, q)
                    == nibble_at(orig, q),
        decreases width - j,
    {
        let p: usize = nib_off + j;
        proof {
            lemma_fundamental_div_mod(p as int, 2);
            lemma_mod_bound(p as int, 2);
            assert(p / 2 < dest@.len());
        }
        let bidx: usize = p / 2;
        let old_b: u8 = dest[bidx];
        let nib: u8 = (cur % 16) as u8;
        let ghost pre: Seq<u8> = dest@;
        let new_b: u8 = if p % 2 == 0 {
            proof {
                lemma_fundamental_div_mod(old_b as int, 16);
                lemma_mod_bound(old_b as int, 16);
                lemma_div_is_ordered(old_b as int, 255int, 16);
                assert(255int / 16 == 15) by {
                    lemma_fundamental_div_mod(255int, 16);
                    lemma_mod_bound(255int, 16);
                };
            }
            (old_b / 16) * 16 + nib
        } else {
            (old_b % 16) + nib * 16
        };
        dest[bidx] = new_b;
        proof {
            lemma_mod_bound(cur as int, 16);
            // The written byte keeps its other nibble and takes `nib`.
            if p % 2 == 0 {
                assert(new_b as int % 16 == nib as int && new_b as int / 16 == old_b as int
                    / 16) by {
                    lemma_div_multiples_vanish_fancy(old_b as int / 16, nib as int, 16);
                    lemma_fundamental_div_mod(new_b as int, 16);
                    lemma_mod_bound(new_b as int, 16);
                };
            } else {
                assert(new_b as int % 16 == old_b as int % 16 && new_b as int / 16
                    == nib as int) by {
                    lemma_mod_bound(old_b as int, 16);
                    lemma_div_multiples_vanish_fancy(nib as int, old_b as int % 16, 16);
                    lemma_fundamental_div_mod(new_b as int, 16);
                    lemma_mod_bound(new_b as int, 16);
                };
            }
            // Position p now holds nibble j of `value`.
            assert(nibble_at(dest@, p as int) == nib_seq(value, width as nat)[j as int]) by {
                lemma_pow16_pos(j as nat);
            };
            // Every other nibble position is untouched.
            assert forall|q: int|
                0 <= q < 2 * orig.len() && q != p implies nibble_at(dest@, q) == nibble_at(
                pre,
                q,
            ) by {
                lemma_fundamental_div_mod(q, 2);
                lemma_mod_bound(q, 2);
                lemma_fundamental_div_mod(p as int, 2);
                if q / 2 != bidx {
                    assert(dest@[q / 2] == pre[q / 2]);
                } else {
                    assert(q == 2 * (q / 2) + q % 2);
                    assert(q % 2 != p as int % 2);
                }
            };
            // Advance the remaining value by one nibble.
            assert(cur as nat / 16 == value as nat / pow16((j + 1) as nat)) by {
                lemma_pow16_pos(j as nat);
                lemma_div_denominator(value as int, pow16(j as nat) as int, 16);
                assert(pow16((j + 1) as nat) == 16 * pow16(j as nat));
            };
        }
        cur = cur / 16;
        j = j + 1;
    }
    proof {
        lemma_val_of_nib_seq(dest@, nib_off as int, value, width as nat);
    }
    Ok(())
}

/// Zig-zag image of a signed value: small magnitudes map to small numbers.
pub open spec fn zigzag(n: i64) -> u64 {
    if n >= 0 {
        (2 * n) as u64
    } else {
        (-2 * n - 1) as u64
    }
}

/// Inverse of the zig-zag image.
pub open spec fn zigzag_inv(u: u64) -> i64 {
    if u % 2 == 0 {
        (u / 2) as i64
    } else {
        (-(u / 2) - 1) as i64
    }
}

/// Reversible signed-to-unsigned mapping preserving small magnitude.
pub fn zigzag_encode(n: i64) -> (r: u64)
    ensures
        r == zigzag(n),
{
    if n >= 0 {
        (n as u64) * 2
    } else {
        let m: i64 = -(n + 1);
        (m as u64) * 2 + 1
    }
}

/// Undoes `zigzag_encode`.
pub fn zigzag_decode(u: u64) -> (r: i64)
    ensures
        r == zigzag_inv(u),
{
    if u % 2 == 0 {
        (u / 2) as i64
    } else {
        -((u / 2) as i64) - 1
    }
}

/// The zig-zag transform is a bijection: decoding an encoded value gives
/// the value back, and encoding a decoded value gives the code back.
pub proof fn lemma_zigzag_round_trip(n: i64, u: u64)
    ensures
        zigzag_inv(zigzag(n)) == n,
        zigzag(zigzag_inv(u)) == u,
{
    lemma_fundamental_div_mod(u as int, 2);
    lemma_mod_bound(u as int, 2);
    if n >= 0 {
        lemma_mod_multiples_basic(n as int, 2);
        lemma_div_multiples_vanish(n as int, 2);
    } else {
        assert(zigzag(n) == (-2 * n - 1) as u64);
        assert((-2 * n - 1) % 2 == 1) by {
            lemma_fundamental_div_mod(-2 * n - 1, 2);
            lemma_mod_bound(-2 * n - 1, 2);
            lemma_div_multiples_vanish_fancy(-n - 1, 1, 2);
        };
        lemma_div_multiples_vanish_fancy(-n - 1, 1, 2);
    }
}

} // verus!
