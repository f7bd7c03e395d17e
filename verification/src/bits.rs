//! Bit streams over bytes, most significant bit first, and the numbers that
//! ranges of them spell.

use vstd::prelude::*;
use vstd::arithmetic::power2::{lemma2_to64, lemma_pow2_adds, lemma_pow2_pos, pow2};
use vstd::arithmetic::div_mod::{lemma_fundamental_div_mod_converse, lemma_mod_multiples_vanish};
use bitvec::order::Msb0;
use bitvec::slice::BitSlice;

verus! {

/// Bit `k` of `bytes`, where bit 0 is the most significant bit of the first
/// byte.
pub open spec fn msb0_bit(bytes: Seq<u8>, k: int) -> u8 {
    ((bytes[k / 8] as nat / pow2((7 - k % 8) as nat)) % 2) as u8
}

/// All bits of `bytes`, most significant bit first.
pub open spec fn msb0_bits(bytes: Seq<u8>) -> Seq<u8> {
    Seq::new(8 * bytes.len(), |k: int| msb0_bit(bytes, k))
}

/// Whether every element of `bits` is 0 or 1.
pub open spec fn is_binary(bits: Seq<u8>) -> bool {
    forall|k: int| 0 <= k < bits.len() ==> #[trigger] bits[k] <= 1
}

/// The number that `bits` spells, most significant bit first.
pub open spec fn bits_value(bits: Seq<u8>) -> nat
    decreases bits.len(),
{
    if bits.len() == 0 {
        0
    } else {
        2 * bits_value(bits.drop_last()) + bits.last() as nat
    }
}

/// Value of `bytes` read as an unsigned number, most significant byte first.
pub open spec fn be_value(bytes: Seq<u8>) -> nat
    decreases bytes.len(),
{
    if bytes.len() == 0 {
        0
    } else {
        256 * be_value(bytes.drop_last()) + bytes.last() as nat
    }
}

/// The bits `from..to` of `bytes` in a `BitSlice` of bitvec with the order
/// `Msb0`, each as 0 or 1. `BitSlice::from_slice` panics on a slice too long
/// to be viewed, which on no machine is one of at most `0x1fff_ffff` bits,
/// and indexing by a range panics unless `from <= to` and `to` is at most
/// the number of bits; the precondition rules both out.
#[verifier::external_body]
pub(crate) fn bitslice_to_vec(bytes: &[u8], from: usize, to: usize) -> (bits: Vec<u8>)
    requires
        from <= to <= 8 * bytes@.len(),
        8 * bytes@.len() <= 0x1fff_ffff,
    ensures
        bits@ == msb0_bits(bytes@).subrange(from as int, to as int),
{
    let slice = BitSlice::<u8, Msb0>::from_slice(bytes);
    slice[from..to].iter().by_vals().map(u8::from).collect()
}

/// A bit stream followed by another spells the first number shifted left by
/// the length of the second, plus the second number.
pub proof fn lemma_bits_value_concat(high: Seq<u8>, low: Seq<u8>)
    ensures
        bits_value(high + low) == bits_value(high) * pow2(low.len()) + bits_value(low),
    decreases low.len(),
{
    lemma2_to64();
    if low.len() == 0 {
        assert(high + low =~= high);
    } else {
        let rest = low.drop_last();
        assert((high + low).drop_last() =~= high + rest);
        lemma_bits_value_concat(high, rest);
        lemma_pow2_adds(1, rest.len());
        assert(bits_value(high) * (2 * pow2(rest.len())) == 2 * (bits_value(high) * pow2(
            rest.len(),
        ))) by (nonlinear_arith);
    }
}

/// A stream of `n` binary digits spells a number below `2^n`.
pub proof fn lemma_bits_value_bound(bits: Seq<u8>)
    requires
        is_binary(bits),
    ensures
        bits_value(bits) < pow2(bits.len()),
    decreases bits.len(),
{
    lemma2_to64();
    if bits.len() > 0 {
        let rest = bits.drop_last();
        assert(is_binary(rest));
        lemma_bits_value_bound(rest);
        lemma_pow2_adds(1, rest.len());
    }
}

/// The number spelled by the digits `from..to` of a binary stream is the
/// number of the whole stream, shifted right by the digits after `to` and cut
/// to `to - from` digits.
pub proof fn lemma_bits_value_subrange(bits: Seq<u8>, from: int, to: int)
    requires
        is_binary(bits),
        0 <= from <= to <= bits.len(),
    ensures
        bits_value(bits.subrange(from, to)) == (bits_value(bits) / pow2((bits.len() - to) as nat))
            % pow2((to - from) as nat),
{
    let head = bits.take(to);
    let tail = bits.skip(to);
    let mid = bits.subrange(from, to);
    let front = bits.take(from);
    assert(bits =~= head + tail);
    assert(head =~= front + mid);
    assert(is_binary(tail));
    assert(is_binary(mid));
    lemma_bits_value_concat(head, tail);
    lemma_bits_value_concat(front, mid);
    lemma_bits_value_bound(tail);
    lemma_bits_value_bound(mid);
    lemma_pow2_pos(tail.len());
    lemma_pow2_pos(mid.len());
    lemma_fundamental_div_mod_converse(
        bits_value(bits) as int,
        pow2(tail.len()) as int,
        bits_value(head) as int,
        bits_value(tail) as int,
    );
    lemma_fundamental_div_mod_converse(
        bits_value(head) as int,
        pow2(mid.len()) as int,
        bits_value(front) as int,
        bits_value(mid) as int,
    );
}

/// The eight bits of one byte spell the byte.
proof fn lemma_byte_bits(x: u8)
    ensures
        bits_value(msb0_bits(seq![x])) == x,
{
    lemma2_to64();
    let v = x as nat;
    let bits = msb0_bits(seq![x]);
    assert(bits.len() == 8);
    assert(bits[0] == v / 128 % 2);
    assert(bits[1] == v / 64 % 2);
    assert(bits[2] == v / 32 % 2);
    assert(bits[3] == v / 16 % 2);
    assert(bits[4] == v / 8 % 2);
    assert(bits[5] == v / 4 % 2);
    assert(bits[6] == v / 2 % 2);
    assert(bits[7] == v / 1 % 2);
    lemma_bits_value_take(bits, 0);
    lemma_bits_value_take(bits, 1);
    lemma_bits_value_take(bits, 2);
    lemma_bits_value_take(bits, 3);
    lemma_bits_value_take(bits, 4);
    lemma_bits_value_take(bits, 5);
    lemma_bits_value_take(bits, 6);
    lemma_bits_value_take(bits, 7);
    assert(bits.take(0).len() == 0);
    assert(bits.take(8) =~= bits);
}

/// One more digit doubles the number spelled so far and adds the digit.
proof fn lemma_bits_value_take(bits: Seq<u8>, k: int)
    requires
        0 <= k < bits.len(),
    ensures
        bits_value(bits.take(k + 1)) == 2 * bits_value(bits.take(k)) + bits[k] as nat,
{
    assert(bits.take(k + 1).drop_last() =~= bits.take(k));
}

/// The bits of a range of bytes are the matching range of the bits of all
/// the bytes.
pub proof fn lemma_msb0_bits_subrange(bytes: Seq<u8>, from: int, to: int)
    requires
        0 <= from <= to <= bytes.len(),
    ensures
        msb0_bits(bytes.subrange(from, to)) == msb0_bits(bytes).subrange(8 * from, 8 * to),
{
    let part = bytes.subrange(from, to);
    assert forall|k: int| 0 <= k < 8 * (to - from) implies msb0_bit(part, k) == msb0_bit(
        bytes,
        8 * from + k,
    ) by {
        assert((8 * from + k) / 8 == from + k / 8);
        assert((8 * from + k) % 8 == k % 8);
    }
    assert(msb0_bits(part) =~= msb0_bits(bytes).subrange(8 * from, 8 * to));
}

/// The bits of a byte sequence are binary digits.
pub proof fn lemma_msb0_bits_binary(bytes: Seq<u8>)
    ensures
        is_binary(msb0_bits(bytes)),
{
}

/// All the bits of a byte sequence, most significant first, spell the number
/// that its bytes spell, most significant first.
pub proof fn lemma_bits_spell_bytes(bytes: Seq<u8>)
    ensures
        bits_value(msb0_bits(bytes)) == be_value(bytes),
    decreases bytes.len(),
{
    lemma2_to64();
    if bytes.len() == 0 {
        assert(msb0_bits(bytes) =~= Seq::<u8>::empty());
    } else {
        let n = bytes.len() as int;
        let init = bytes.drop_last();
        let last = seq![bytes.last()];
        lemma_bits_spell_bytes(init);
        lemma_byte_bits(bytes.last());
        assert(init =~= bytes.subrange(0, n - 1));
        assert(last =~= bytes.subrange(n - 1, n));
        lemma_msb0_bits_subrange(bytes, 0, n - 1);
        lemma_msb0_bits_subrange(bytes, n - 1, n);
        assert(msb0_bits(bytes) =~= msb0_bits(init) + msb0_bits(last));
        lemma_bits_value_concat(msb0_bits(init), msb0_bits(last));
    }
}

/// Doubling and adding a digit may be done on the 32 low bits alone.
proof fn lemma_low_bits_shift(value: nat, low: nat, digit: nat)
    requires
        low == value % 0x1_0000_0000,
    ensures
        (low * 2 + digit) % 0x1_0000_0000 == (2 * value + digit) % 0x1_0000_0000,
{
    let high = value / 0x1_0000_0000;
    assert(value == high * 0x1_0000_0000 + low);
    lemma_mod_multiples_vanish((2 * high) as int, (low * 2 + digit) as int, 0x1_0000_0000);
}

/// The number that the digits of `binary` spell, most significant digit
/// first, cut to its 32 low bits.
pub fn binary_to_u32(binary: Vec<u8>) -> (sum: u32)
    ensures
        sum == bits_value(binary@) % 0x1_0000_0000,
{
    let mut sum: u32 = 0;
    let mut k: usize = 0;
    while k < binary.len()
        invariant
            k <= binary@.len(),
            sum == bits_value(binary@.take(k as int)) % 0x1_0000_0000,
        decreases binary@.len() - k,
    {
        let bit = binary[k];
        proof {
            lemma_bits_value_take(binary@, k as int);
            lemma_low_bits_shift(bits_value(binary@.take(k as int)), sum as nat, bit as nat);
        }
        sum = ((sum as u64 * 2 + bit as u64) % 0x1_0000_0000) as u32;
        k = k + 1;
    }
    assert(binary@.take(k as int) =~= binary@);
    sum
}

} // verus!
