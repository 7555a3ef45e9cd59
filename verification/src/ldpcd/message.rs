//! Packing of the decoded message bits into bytes.

use crate::ldpcd::parity_check_matrix::{K, N};
use vstd::prelude::*;

verus! {

/// Number of bytes of a packed message.
pub const MESSAGE_BYTES: usize = K / 8;

/// Number of coded bits, counted from the first, that make up the message:
/// the code has rate 1/2, and the message is the first half of a codeword.
pub const MESSAGE_BITS: usize = N / 2;

/// The message has as many bits as the code has parity checks, and they
/// fill the bytes of a packed message exactly.
pub proof fn lemma_message_fills_bytes()
    ensures
        MESSAGE_BITS == K,
        MESSAGE_BITS == 8 * MESSAGE_BYTES,
{
}

/// Bit `k` of a byte, counted from the most significant bit.
pub open spec fn bit_of_byte(byte: u8, k: int) -> bool {
    (byte >> ((7 - k) as u8)) & 1 == 1
}

/// Bit `a` of a message that is packed most significant bit first: it stands
/// in byte `a / 8`, at position `a % 8` from the top.
pub open spec fn message_bit(bytes: Seq<u8>, a: int) -> bool {
    bit_of_byte(bytes[a / 8], a % 8)
}

/// The bits of a packed message, in order.
pub open spec fn unpacked(bytes: Seq<u8>) -> Seq<bool> {
    Seq::new(8 * bytes.len(), |a: int| message_bit(bytes, a))
}

/// No bit of a zero byte is set.
proof fn lemma_zero_byte(k: u8)
    by (bit_vector)
    requires
        k < 8,
    ensures
        (0u8 >> (7 - k) as u8) & 1 == 0,
{
}

/// Setting bit `k` from the top sets that bit and leaves the others as they
/// are.
proof fn lemma_set_bit(byte: u8, k: u8, j: u8)
    by (bit_vector)
    requires
        k < 8,
        j < 8,
    ensures
        ((byte | (1u8 << (7 - k) as u8)) >> (7 - j) as u8) & 1 == (if j == k {
            1u8
        } else {
            (byte >> (7 - j) as u8) & 1
        }),
{
}

/// A byte is determined by its eight bits.
proof fn lemma_byte_from_bits(a: u8, b: u8)
    by (bit_vector)
    requires
        ((a >> 7) & 1 == 1) == ((b >> 7) & 1 == 1),
        ((a >> 6) & 1 == 1) == ((b >> 6) & 1 == 1),
        ((a >> 5) & 1 == 1) == ((b >> 5) & 1 == 1),
        ((a >> 4) & 1 == 1) == ((b >> 4) & 1 == 1),
        ((a >> 3) & 1 == 1) == ((b >> 3) & 1 == 1),
        ((a >> 2) & 1 == 1) == ((b >> 2) & 1 == 1),
        ((a >> 1) & 1 == 1) == ((b >> 1) & 1 == 1),
        ((a >> 0) & 1 == 1) == ((b >> 0) & 1 == 1),
    ensures
        a == b,
{
}

/// A packed message is determined by its bits: two byte sequences of one
/// length that unpack to the same bits are equal.
pub proof fn lemma_unpacked_injective(first: Seq<u8>, second: Seq<u8>)
    requires
        first.len() == second.len(),
        unpacked(first) == unpacked(second),
    ensures
        first == second,
{
    assert forall|b: int| 0 <= b < first.len() implies first[b] == second[b] by {
        assert forall|k: int| 0 <= k < 8 implies bit_of_byte(first[b], k) == bit_of_byte(
            second[b],
            k,
        ) by {
            let a = 8 * b + k;
            assert(a / 8 == b && a % 8 == k);
            assert(unpacked(first)[a] == message_bit(first, a));
            assert(unpacked(second)[a] == message_bit(second, a));
        }
        assert(bit_of_byte(first[b], 0) == bit_of_byte(second[b], 0));
        assert(bit_of_byte(first[b], 1) == bit_of_byte(second[b], 1));
        assert(bit_of_byte(first[b], 2) == bit_of_byte(second[b], 2));
        assert(bit_of_byte(first[b], 3) == bit_of_byte(second[b], 3));
        assert(bit_of_byte(first[b], 4) == bit_of_byte(second[b], 4));
        assert(bit_of_byte(first[b], 5) == bit_of_byte(second[b], 5));
        assert(bit_of_byte(first[b], 6) == bit_of_byte(second[b], 6));
        assert(bit_of_byte(first[b], 7) == bit_of_byte(second[b], 7));
        lemma_byte_from_bits(first[b], second[b]);
    }
    assert(first =~= second);
}

/// Thresholds and packs the message part of a word into bytes.
///
/// `x` holds the hard decisions on the coded bits. The first `MESSAGE_BITS`
/// of them are the message; they are packed most significant bit first.
pub fn pack_message(x: &[bool; N]) -> (message: [u8; MESSAGE_BYTES])
    ensures
        unpacked(message@) == x@.take(MESSAGE_BITS as int),
{
    let mut message = [0u8; 16];
    assert forall|c: int| 0 <= c < MESSAGE_BITS implies !message_bit(message@, c) by {
        lemma_zero_byte((c % 8) as u8);
    }
    for a in 0usize..MESSAGE_BITS
        invariant
            forall|c: int| 0 <= c < a ==> message_bit(message@, c) == x[c],
            forall|c: int| a <= c < MESSAGE_BITS ==> !message_bit(message@, c),
    {
        if x[a] {
            let ghost before = message;
            message[a / 8] |= 1 << (7 - (a % 8));
            assert forall|c: int| 0 <= c < MESSAGE_BITS implies message_bit(message@, c) == (if c
                == a {
                true
            } else {
                message_bit(before@, c)
            }) by {
                if c / 8 == a / 8 {
                    lemma_set_bit(before[a as int / 8], (a % 8) as u8, (c % 8) as u8);
                }
            }
        }
    }
    assert(unpacked(message@) =~= x@.take(MESSAGE_BITS as int));
    message
}

} // verus!
