//! Bit-exact extraction of signal fields from frame data, Intel and Motorola
//! numbering, and two's-complement sign extension.

use vstd::prelude::*;
use vstd::arithmetic::power2::{pow2, lemma_pow2_unfold, lemma_pow2_pos};
use vstd::arithmetic::div_mod::{lemma_mod_breakdown, lemma_small_mod};
use vstd::bits::{lemma_u64_shl_is_mul, lemma_u64_pow2_no_overflow, lemma_u8_shr_is_div};

verus! {

/// Bit `pos` of `data`, bits being numbered from the least significant bit of
/// byte 0 upwards; 0 outside the buffer.
pub open spec fn bit_at(data: Seq<u8>, pos: int) -> nat {
    if 0 <= pos < 8 * data.len() {
        ((data[pos / 8] as nat) / pow2((pos % 8) as nat)) % 2
    } else {
        0
    }
}

/// Buffer position of bit `i` of a signal that starts at `start`: Intel
/// signals run upwards from their least significant bit, Motorola signals
/// downwards from their most significant one.
pub open spec fn signal_bit_pos(start: int, i: int, big_endian: bool) -> int {
    if big_endian {
        start - i
    } else {
        start + i
    }
}

/// Value of the `n` lowest bits of a signal.
pub open spec fn raw_bits(data: Seq<u8>, start: int, n: nat, big_endian: bool) -> nat
    decreases n,
{
    if n == 0 {
        0
    } else {
        raw_bits(data, start, (n - 1) as nat, big_endian) + bit_at(data, signal_bit_pos(start, n - 1, big_endian))
            * pow2((n - 1) as nat)
    }
}

/// Raw value of a signal of `bit_count` bits at `start_bit`: none for a width
/// outside 1..=64, a start beyond the data, or a Motorola signal whose start
/// leaves too few bits below it.
pub open spec fn extract_spec(data: Seq<u8>, start_bit: int, bit_count: int, big_endian: bool) -> Option<u64> {
    if bit_count < 1 || bit_count > 64 || start_bit >= 8 * data.len() || (big_endian && start_bit < bit_count - 1) {
        None
    } else {
        Some(raw_bits(data, start_bit, bit_count as nat, big_endian) as u64)
    }
}

/// Two's-complement reading of the `w`-bit value `m`.
pub open spec fn twos_complement(m: int, w: nat) -> int {
    if w > 0 && m >= pow2((w - 1) as nat) {
        m - pow2(w)
    } else {
        m
    }
}

proof fn lemma_raw_bits_bound(data: Seq<u8>, start: int, n: nat, big_endian: bool)
    ensures
        raw_bits(data, start, n, big_endian) < pow2(n),
    decreases n,
{
    if n > 0 {
        lemma_raw_bits_bound(data, start, (n - 1) as nat, big_endian);
        lemma_pow2_unfold(n);
        let b = bit_at(data, signal_bit_pos(start, n - 1, big_endian));
        let p = pow2((n - 1) as nat);
        assert(b <= 1);
        assert(b * p <= p) by (nonlinear_arith)
            requires b <= 1;
    } else {
        lemma_pow2_pos(0);
    }
}

fn read_bit(data: &[u8], pos: i128) -> (r: u64)
    requires
        0 <= pos < 8 * data@.len(),
    ensures
        r == bit_at(data@, pos as int),
{
    let byte = data[(pos / 8) as usize];
    let shift = (pos % 8) as u8;
    proof {
        lemma_u8_shr_is_div(byte, shift);
    }
    let shifted = byte >> shift;
    assert(shifted & 1 == shifted % 2) by (bit_vector);
    (shifted & 1) as u64
}

/// Extracts the raw value of a signal from `data`: bit `i` of the result is
/// the bit at `start_bit + i` (Intel, bits past the data read as 0) or at
/// `start_bit - i` (Motorola).
pub fn extract_signal_raw(data: &[u8], start_bit: i64, bit_count: i64, is_big_endian: bool) -> (r: Option<u64>)
    ensures
        r == extract_spec(data@, start_bit as int, bit_count as int, is_big_endian),
{
    if bit_count < 1 || bit_count > 64 {
        return None;
    }
    let total_bits: i128 = data.len() as i128 * 8;
    if start_bit as i128 >= total_bits {
        return None;
    }
    if is_big_endian && start_bit < bit_count - 1 {
        return None;
    }
    let mut result: u64 = 0;
    let mut i: i64 = 0;
    while i < bit_count
        invariant
            1 <= bit_count <= 64,
            0 <= i <= bit_count,
            total_bits == 8 * data@.len(),
            (start_bit as int) < total_bits,
            is_big_endian ==> start_bit >= bit_count - 1,
            result as nat == raw_bits(data@, start_bit as int, i as nat, is_big_endian),
        decreases bit_count - i,
    {
        proof {
            lemma_raw_bits_bound(data@, start_bit as int, i as nat, is_big_endian);
            lemma_u64_pow2_no_overflow(i as nat);
            lemma_u64_shl_is_mul(1, i as u64);
            lemma_pow2_unfold((i + 1) as nat);
        }
        let pos: i128 = if is_big_endian { start_bit as i128 - i as i128 } else { start_bit as i128 + i as i128 };
        let bit: u64 = if 0 <= pos && pos < total_bits { read_bit(data, pos) } else { 0 };
        let ghost b = bit_at(data@, signal_bit_pos(start_bit as int, i as int, is_big_endian));
        assert(bit == b);
        assert(b <= 1);
        if bit != 0 {
            let sh = i as u64;
            let mask: u64 = 1u64 << sh;
            let prev = result;
            assert(mask == pow2(i as nat));
            assert(prev < mask ==> prev | mask == prev + mask) by (bit_vector)
                requires mask == 1u64 << sh, sh < 64;
            result = result | mask;
            assert(result == prev + pow2(i as nat));
        }
        let ghost prev_raw = raw_bits(data@, start_bit as int, i as nat, is_big_endian);
        assert(raw_bits(data@, start_bit as int, (i + 1) as nat, is_big_endian) == prev_raw + b * pow2(i as nat));
        assert(result as nat == prev_raw + b * pow2(i as nat)) by {
            if bit == 0 {
                assert(b == 0);
                assert(b * pow2(i as nat) == 0);
            }
        }
        i = i + 1;
    }
    proof {
        lemma_raw_bits_bound(data@, start_bit as int, bit_count as nat, is_big_endian);
    }
    Some(result)
}

/// Reads the low `bit_count` bits of `raw` as a two's-complement number.
pub fn sign_extend(raw: u64, bit_count: u64) -> (r: i64)
    requires
        1 <= bit_count <= 64,
    ensures
        r == twos_complement(raw as int % pow2(bit_count as nat) as int, bit_count as nat),
{
    proof {
        lemma_pow2_unfold(bit_count as nat);
        lemma_pow2_pos((bit_count - 1) as nat);
        lemma_u64_pow2_no_overflow((bit_count - 1) as nat);
        lemma_u64_shl_is_mul(1, (bit_count - 1) as u64);
    }
    let one: u64 = 1;
    let half: u64 = one << (bit_count - 1);
    let m: u64 = if bit_count == 64 {
        proof {
            assert(pow2(64) == 0x1_0000_0000_0000_0000) by {
                vstd::arithmetic::power2::lemma2_to64();
            }
            lemma_small_mod(raw as nat, pow2(64));
        }
        raw
    } else {
        proof {
            lemma_u64_pow2_no_overflow(bit_count as nat);
            lemma_u64_shl_is_mul(1, bit_count as u64);
        }
        raw % (one << bit_count)
    };
    if m >= half {
        (m as i128 - 2 * half as i128) as i64
    } else {
        m as i64
    }
}

proof fn lemma_raw_bits_digits(data: Seq<u8>, start: int, n: nat, big_endian: bool, value: nat, count: int)
    requires
        n <= count,
        forall|i: int| 0 <= i < count ==> bit_at(data, signal_bit_pos(start, i, big_endian)) == (value / pow2(i as nat)) % 2,
    ensures
        raw_bits(data, start, n, big_endian) == value % pow2(n),
    decreases n,
{
    if n == 0 {
        vstd::arithmetic::power2::lemma2_to64();
        assert(value % 1 == 0);
    } else {
        let m = (n - 1) as nat;
        lemma_raw_bits_digits(data, start, m, big_endian, value, count);
        lemma_pow2_pos(m);
        lemma_pow2_unfold(n);
        lemma_mod_breakdown(value as int, pow2(m) as int, 2);
        assert(bit_at(data, signal_bit_pos(start, m as int, big_endian)) == (value / pow2(m)) % 2);
        assert(pow2(m) * ((value / pow2(m)) % 2) == ((value / pow2(m)) % 2) * pow2(m)) by (nonlinear_arith);
    }
}

proof fn lemma_extract_digits(data: Seq<u8>, start: int, count: int, big_endian: bool, value: nat)
    requires
        1 <= count <= 64,
        value < pow2(count as nat),
        big_endian ==> count - 1 <= start && start < 8 * data.len(),
        !big_endian ==> 0 <= start && start + count <= 8 * data.len(),
        forall|i: int| 0 <= i < count ==> bit_at(data, signal_bit_pos(start, i, big_endian)) == (value / pow2(i as nat)) % 2,
    ensures
        extract_spec(data, start, count, big_endian) == Some(value as u64),
{
    lemma_raw_bits_digits(data, start, count as nat, big_endian, value, count);
    lemma_pow2_pos(count as nat);
    lemma_small_mod(value, pow2(count as nat));
    vstd::arithmetic::power2::lemma2_to64();
    assert(pow2(64) == 0x1_0000_0000_0000_0000);
    if count < 64 {
        vstd::arithmetic::power2::lemma_pow2_strictly_increases(count as nat, 64);
    }
}

/// Bit at buffer position `pos` once `value` is packed as a signal of `count`
/// bits starting at `start` into a zeroed buffer.
pub open spec fn packed_bit(value: nat, start: int, count: int, big_endian: bool, pos: int) -> u8 {
    let i = if big_endian { start - pos } else { pos - start };
    if 0 <= i < count {
        ((value / pow2(i as nat)) % 2) as u8
    } else {
        0
    }
}

/// Byte `j` of that buffer.
pub open spec fn packed_byte(value: nat, start: int, count: int, big_endian: bool, j: int) -> u8 {
    let b = |k: int| packed_bit(value, start, count, big_endian, 8 * j + k);
    (b(0) + 2 * b(1) + 4 * b(2) + 8 * b(3) + 16 * b(4) + 32 * b(5) + 64 * b(6) + 128 * b(7)) as u8
}

/// A zeroed buffer of `len` bytes into which `value` is packed as a signal of
/// `count` bits starting at `start`.
pub open spec fn packed(value: nat, start: int, count: int, big_endian: bool, len: nat) -> Seq<u8> {
    Seq::new(len, |j: int| packed_byte(value, start, count, big_endian, j))
}

proof fn lemma_byte_bits(b0: u8, b1: u8, b2: u8, b3: u8, b4: u8, b5: u8, b6: u8, b7: u8, m: u8)
    requires
        b0 <= 1 && b1 <= 1 && b2 <= 1 && b3 <= 1 && b4 <= 1 && b5 <= 1 && b6 <= 1 && b7 <= 1,
        m < 8,
    ensures
        ({
            let x = (b0 + 2 * b1 + 4 * b2 + 8 * b3 + 16 * b4 + 32 * b5 + 64 * b6 + 128 * b7) as u8;
            (x >> m) & 1 == (if m == 0 { b0 } else if m == 1 { b1 } else if m == 2 { b2 } else if m == 3 { b3 }
                else if m == 4 { b4 } else if m == 5 { b5 } else if m == 6 { b6 } else { b7 })
        }),
{
    assert(({
        let x = (b0 + 2 * b1 + 4 * b2 + 8 * b3 + 16 * b4 + 32 * b5 + 64 * b6 + 128 * b7) as u8;
        (x >> m) & 1 == (if m == 0 { b0 } else if m == 1 { b1 } else if m == 2 { b2 } else if m == 3 { b3 }
            else if m == 4 { b4 } else if m == 5 { b5 } else if m == 6 { b6 } else { b7 })
    })) by (bit_vector)
        requires
            b0 <= 1 && b1 <= 1 && b2 <= 1 && b3 <= 1 && b4 <= 1 && b5 <= 1 && b6 <= 1 && b7 <= 1,
            m < 8;
}

proof fn lemma_packed_bit(value: nat, start: int, count: int, big_endian: bool, len: nat, pos: int)
    requires
        0 <= pos < 8 * len,
    ensures
        bit_at(packed(value, start, count, big_endian, len), pos) == packed_bit(value, start, count, big_endian, pos),
{
    let j = pos / 8;
    let m = pos % 8;
    let bit = |k: int| packed_bit(value, start, count, big_endian, 8 * j + k);
    let x = packed_byte(value, start, count, big_endian, j);
    assert(packed(value, start, count, big_endian, len)[j] == x);
    lemma_byte_bits(bit(0), bit(1), bit(2), bit(3), bit(4), bit(5), bit(6), bit(7), m as u8);
    lemma_u8_shr_is_div(x, m as u8);
    let shifted = x >> (m as u8);
    assert(shifted & 1 == shifted % 2) by (bit_vector);
    assert(pos == 8 * j + m);
}

/// Extraction undoes packing, for Intel and Motorola signals alike: packing
/// `value` as a signal of `count` bits starting at `start` into a zeroed buffer
/// of `ceil((start + count) / 8)` bytes and extracting the signal again gives
/// back `value`.
pub proof fn lemma_extract_round_trip(value: nat, start: int, count: int, big_endian: bool)
    requires
        1 <= count <= 64,
        value < pow2(count as nat),
        0 <= start,
        big_endian ==> count - 1 <= start,
    ensures
        ({
            let len = ((start + count + 7) / 8) as nat;
            extract_spec(packed(value, start, count, big_endian, len), start, count, big_endian) == Some(value as u64)
        }),
{
    let len = ((start + count + 7) / 8) as nat;
    let data = packed(value, start, count, big_endian, len);
    assert(start + count <= 8 * len);
    assert forall|i: int| 0 <= i < count implies bit_at(data, signal_bit_pos(start, i, big_endian)) == (value
        / pow2(i as nat)) % 2 by {
        let pos = signal_bit_pos(start, i, big_endian);
        lemma_packed_bit(value, start, count, big_endian, len, pos);
    }
    lemma_extract_digits(data, start, count, big_endian, value);
}

} // verus!
