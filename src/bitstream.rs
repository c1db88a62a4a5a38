//! Bit-level model of a DEFLATE stream and the format's constant tables.
use vstd::prelude::*;

verus! {

/// Ways in which decoding a stream can fail.
#[derive(Debug, Clone, Copy, PartialEq, Eq, Structural)]
pub enum InflateError {
    /// The input ended before a required field was complete.
    EndOfInput,
    /// A code-length assignment is over-subscribed.
    InvalidHuffmanLengths,
    /// No code length from 1 to 15 matched the bits read.
    InvalidSymbol,
    /// A block header field is out of range, a run-length escape is
    /// misplaced, or a stored block's length disagrees with its complement.
    MalformedHeader,
    /// A back-reference points before the start of the output.
    InvalidDistance,
    /// A literal/length or distance symbol that the format does not define.
    MalformedBlock,
}

/// `2` raised to the power `n`.
pub open spec fn pow2(n: nat) -> nat
    decreases n,
{
    if n == 0 {
        1
    } else {
        2 * pow2((n - 1) as nat)
    }
}

pub proof fn lemma_pow2_mono(a: nat, b: nat)
    requires
        a <= b,
    ensures
        pow2(a) <= pow2(b),
    decreases b,
{
    if a < b {
        lemma_pow2_mono(a, (b - 1) as nat);
    }
}

pub proof fn lemma_pow2_le_16(a: nat)
    requires
        a <= 16,
    ensures
        pow2(a) <= 65536,
{
    lemma_pow2_mono(a, 16);
    reveal_with_fuel(pow2, 17);
}

/// Bit number `p` of the stream: bits are taken from each byte starting at
/// its least significant bit.
pub open spec fn bit_at(s: Seq<u8>, p: int) -> u8 {
    (s[p / 8] >> ((p % 8) as u8)) & 1u8
}

/// Number of bits in the stream.
pub open spec fn total_bits(s: Seq<u8>) -> int {
    8 * s.len() as int
}

/// The `n` bits starting at bit `p`, read as an integer whose least
/// significant bit is the first bit of the stream.
pub open spec fn bits_value(s: Seq<u8>, p: int, n: nat) -> nat
    decreases n,
{
    if n == 0 {
        0
    } else {
        bits_value(s, p, (n - 1) as nat) + pow2((n - 1) as nat) * (bit_at(s, p + n - 1) as nat)
    }
}

/// Reading an `n`-bit field at bit `p`: its value and the position after it.
pub open spec fn read_field(s: Seq<u8>, p: int, n: nat) -> Result<(nat, int), InflateError> {
    if p + n <= total_bits(s) {
        Ok((bits_value(s, p, n), p + n))
    } else {
        Err(InflateError::EndOfInput)
    }
}

/// Base length of each length code (symbol 257 + i).
pub open spec fn length_bases() -> Seq<u16> {
    seq![
        3u16, 4, 5, 6, 7, 8, 9, 10, 11, 13, 15, 17, 19, 23, 27, 31,
        35, 43, 51, 59, 67, 83, 99, 115, 131, 163, 195, 227, 258,
    ]
}

pub fn length_base(i: usize) -> (r: u16)
    requires
        i < 29,
    ensures
        r == length_bases()[i as int],
{
    let t: [u16; 29] = [
        3, 4, 5, 6, 7, 8, 9, 10, 11, 13, 15, 17, 19, 23, 27, 31,
        35, 43, 51, 59, 67, 83, 99, 115, 131, 163, 195, 227, 258,
    ];
    proof {
        assert(t@ =~= length_bases());
    }
    t[i]
}

/// Number of extra bits after each length code (symbol 257 + i).
pub open spec fn length_extra_bits() -> Seq<u8> {
    seq![
        0u8, 0, 0, 0, 0, 0, 0, 0, 1, 1, 1, 1, 2, 2, 2, 2,
        3, 3, 3, 3, 4, 4, 4, 4, 5, 5, 5, 5, 0,
    ]
}

pub fn length_extra(i: usize) -> (r: u8)
    requires
        i < 29,
    ensures
        r == length_extra_bits()[i as int],
{
    let t: [u8; 29] = [
        0, 0, 0, 0, 0, 0, 0, 0, 1, 1, 1, 1, 2, 2, 2, 2,
        3, 3, 3, 3, 4, 4, 4, 4, 5, 5, 5, 5, 0,
    ];
    proof {
        assert(t@ =~= length_extra_bits());
    }
    t[i]
}

/// Base distance of each distance code.
pub open spec fn distance_bases() -> Seq<u16> {
    seq![
        1u16, 2, 3, 4, 5, 7, 9, 13, 17, 25, 33, 49, 65, 97, 129, 193,
        257, 385, 513, 769, 1025, 1537, 2049, 3073, 4097, 6145, 8193, 12289, 16385, 24577,
    ]
}

pub fn distance_base(i: usize) -> (r: u16)
    requires
        i < 30,
    ensures
        r == distance_bases()[i as int],
{
    let t: [u16; 30] = [
        1, 2, 3, 4, 5, 7, 9, 13, 17, 25, 33, 49, 65, 97, 129, 193,
        257, 385, 513, 769, 1025, 1537, 2049, 3073, 4097, 6145, 8193, 12289, 16385, 24577,
    ];
    proof {
        assert(t@ =~= distance_bases());
    }
    t[i]
}

/// Number of extra bits after each distance code.
pub open spec fn distance_extra_bits() -> Seq<u8> {
    seq![
        0u8, 0, 0, 0, 1, 1, 2, 2, 3, 3, 4, 4, 5, 5, 6, 6,
        7, 7, 8, 8, 9, 9, 10, 10, 11, 11, 12, 12, 13, 13,
    ]
}

pub fn distance_extra(i: usize) -> (r: u8)
    requires
        i < 30,
    ensures
        r == distance_extra_bits()[i as int],
{
    let t: [u8; 30] = [
        0, 0, 0, 0, 1, 1, 2, 2, 3, 3, 4, 4, 5, 5, 6, 6,
        7, 7, 8, 8, 9, 9, 10, 10, 11, 11, 12, 12, 13, 13,
    ];
    proof {
        assert(t@ =~= distance_extra_bits());
    }
    t[i]
}

/// The order in which a dynamic header transmits the code-length code lengths.
pub open spec fn code_length_order() -> Seq<u8> {
    seq![
        16u8, 17, 18, 0, 8, 7, 9, 6, 10, 5, 11, 4, 12, 3, 13, 2,
        14, 1, 15,
    ]
}

pub fn code_length_slot(i: usize) -> (r: u8)
    requires
        i < 19,
    ensures
        r == code_length_order()[i as int],
{
    let t: [u8; 19] = [
        16, 17, 18, 0, 8, 7, 9, 6, 10, 5, 11, 4, 12, 3, 13, 2,
        14, 1, 15,
    ];
    proof {
        assert(t@ =~= code_length_order());
    }
    t[i]
}

} // verus!
