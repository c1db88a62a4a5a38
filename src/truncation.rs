//! Decoding a cut-off copy of a stream: every step that finishes before the
//! cut decodes as on the whole stream, and the first one that does not fails
//! with `EndOfInput`.
use vstd::prelude::*;
use crate::bitstream::{bit_at, bits_value, read_field, total_bits, InflateError};
use crate::bitstream::{distance_bases, distance_extra_bits, length_bases, length_extra_bits};
use crate::huffman::{decode_symbol, lemma_walk_advances, walk, CodeTable};
use crate::huffman::{canonical_table, kraft_ok};
use crate::inflate::{
    block_body, code_length_lengths, stored_block, copy_back, dynamic_block, fixed_block, inflate_from,
    inflate_spec, run_lengths, table_lengths, Outcome,
};

verus! {

/// The position at which a successful step ends.
pub open spec fn end_pos<X, E>(r: Result<(int, X), E>) -> int {
    match r {
        Ok((q, _)) => q,
        Err(_) => 0,
    }
}

/// `r` on the whole stream, from `p`, and `rt` on its first `k` bytes:
/// a success on the whole stream ends within it, and the cut-off copy gives
/// the same result where that end is not past the cut, and `EndOfInput` where
/// the cut falls between `p` and that end.
pub open spec fn cut_agrees<X>(r: Result<(int, X), InflateError>, rt: Result<(int, X), InflateError>, p: int, s: Seq<u8>, k: int) -> bool {
    r.is_ok() ==> {
        &&& p <= end_pos(r) <= total_bits(s)
        &&& end_pos(r) <= 8 * k ==> rt == r
        &&& p <= 8 * k < end_pos(r) ==> rt == Err::<(int, X), InflateError>(InflateError::EndOfInput)
    }
}

/// As `cut_agrees`, for decoding blocks, whose failure also carries the
/// output produced up to it.
pub open spec fn cut_agrees_out(r: Outcome, rt: Outcome, p: int, s: Seq<u8>, k: int) -> bool {
    r.is_ok() ==> {
        &&& p <= end_pos(r) <= total_bits(s)
        &&& end_pos(r) <= 8 * k ==> rt == r
        &&& p <= 8 * k < end_pos(r) ==> rt matches Err((InflateError::EndOfInput, _))
    }
}

/// The position at which a successful read ends.
pub open spec fn read_end<X>(r: Result<(X, int), InflateError>) -> int {
    match r {
        Ok((_, q)) => q,
        Err(_) => 0,
    }
}

/// As `cut_agrees`, for a read whose result holds the value first.
pub open spec fn cut_agrees_read<X>(r: Result<(X, int), InflateError>, rt: Result<(X, int), InflateError>, p: int, s: Seq<u8>, k: int) -> bool {
    r.is_ok() ==> {
        &&& p <= read_end(r) <= total_bits(s)
        &&& read_end(r) <= 8 * k ==> rt == r
        &&& p <= 8 * k < read_end(r) ==> rt == Err::<(X, int), InflateError>(InflateError::EndOfInput)
    }
}

proof fn lemma_bit_cut(s: Seq<u8>, k: int, i: int)
    requires
        0 <= k <= s.len(),
        0 <= i < 8 * k,
    ensures
        bit_at(s.take(k), i) == bit_at(s, i),
{
}

proof fn lemma_bits_value_cut(s: Seq<u8>, k: int, p: int, n: nat)
    requires
        0 <= k <= s.len(),
        0 <= p,
        p + n <= 8 * k,
    ensures
        bits_value(s.take(k), p, n) == bits_value(s, p, n),
    decreases n,
{
    if n > 0 {
        lemma_bits_value_cut(s, k, p, (n - 1) as nat);
        lemma_bit_cut(s, k, p + n - 1);
    }
}

pub proof fn lemma_read_field_cut(s: Seq<u8>, k: int, p: int, n: nat)
    requires
        0 <= k <= s.len(),
        0 <= p,
    ensures
        cut_agrees_read(read_field(s, p, n), read_field(s.take(k), p, n), p, s, k),
{
    if p + n <= 8 * k {
        lemma_bits_value_cut(s, k, p, n);
    }
}

proof fn lemma_walk_cut(
    s: Seq<u8>,
    k: int,
    p: int,
    t: CodeTable,
    len: int,
    code: int,
    first: int,
    index: int,
)
    requires
        0 <= k <= s.len(),
        0 <= p,
    ensures
        cut_agrees_read(
            walk(s, p, t, len, code, first, index),
            walk(s.take(k), p, t, len, code, first, index),
            p,
            s,
            k,
        ),
    decreases 16 - len,
{
    if 1 <= len <= 15 && p < total_bits(s) {
        if p < 8 * k {
            lemma_bit_cut(s, k, p);
        }
        let c = 2 * code + bit_at(s, p) as int;
        let count = t.counts[len] as int;
        if !(c - first < count) {
            lemma_walk_cut(s, k, p + 1, t, len + 1, c, 2 * (first + count), index + count);
        }
    }
}

pub proof fn lemma_decode_symbol_cut(s: Seq<u8>, k: int, p: int, t: CodeTable)
    requires
        0 <= k <= s.len(),
        0 <= p,
    ensures
        cut_agrees_read(decode_symbol(s, p, t), decode_symbol(s.take(k), p, t), p, s, k),
{
    lemma_walk_cut(s, k, p, t, 1, 0, 0, 0);
}


pub proof fn lemma_block_body_cut(s: Seq<u8>, k: int, p: int, out: Seq<u8>, lit: CodeTable, dist: CodeTable)
    requires
        0 <= k <= s.len(),
        0 <= p,
    ensures
        cut_agrees_out(block_body(s, p, out, lit, dist), block_body(s.take(k), p, out, lit, dist), p, s, k),
    decreases total_bits(s) - p,
{
    lemma_decode_symbol_cut(s, k, p, lit);
    lemma_walk_advances(s, p, lit, 1, 0, 0, 0);
    if let Ok((sym, p1)) = decode_symbol(s, p, lit) {
        if sym < 256 {
            lemma_block_body_cut(s, k, p1, out.push(sym as u8), lit, dist);
        } else if 256 < sym < 286 {
            let idx = sym - 257;
            lemma_read_field_cut(s, k, p1, length_extra_bits()[idx as int] as nat);
            if let Ok((extra, p2)) = read_field(s, p1, length_extra_bits()[idx as int] as nat) {
                lemma_decode_symbol_cut(s, k, p2, dist);
                if let Ok((dsym, p3)) = decode_symbol(s, p2, dist) {
                    if dsym < 30 {
                        lemma_read_field_cut(s, k, p3, distance_extra_bits()[dsym as int] as nat);
                        if let Ok((dextra, p4)) = read_field(s, p3, distance_extra_bits()[dsym as int] as nat) {
                            let len = length_bases()[idx as int] as nat + extra;
                            let d = distance_bases()[dsym as int] as int + dextra;
                            if !(d < 1 || d > out.len()) {
                                lemma_block_body_cut(s, k, p4, copy_back(out, d, len), lit, dist);
                            }
                        }
                    }
                }
            }
        }
    }
}


pub proof fn lemma_stored_block_cut(s: Seq<u8>, k: int, p: int, out: Seq<u8>)
    requires
        0 <= k <= s.len(),
        0 <= p,
    ensures
        cut_agrees_out(stored_block(s, p, out), stored_block(s.take(k), p, out), p, s, k),
{
    let t = s.take(k);
    let b = (p + 7) / 8;
    if b + 4 <= s.len() {
        let len = s[b] as int + 256 * s[b + 1] as int;
        if b + 4 + len <= k {
            assert(t.subrange(b + 4, b + 4 + len) =~= s.subrange(b + 4, b + 4 + len));
        }
    }
}

pub proof fn lemma_fixed_block_cut(s: Seq<u8>, k: int, p: int, out: Seq<u8>)
    requires
        0 <= k <= s.len(),
        0 <= p,
    ensures
        cut_agrees_out(fixed_block(s, p, out), fixed_block(s.take(k), p, out), p, s, k),
{
    let lit = canonical_table(crate::inflate::fixed_literal_lengths());
    let dist = canonical_table(crate::inflate::fixed_distance_lengths());
    lemma_block_body_cut(s, k, p, out, lit, dist);
}

pub proof fn lemma_run_lengths_cut(s: Seq<u8>, k: int, p: int, cl: CodeTable, n: nat, lens: Seq<u8>)
    requires
        0 <= k <= s.len(),
        0 <= p,
        p <= total_bits(s),
    ensures
        cut_agrees(run_lengths(s, p, cl, n, lens), run_lengths(s.take(k), p, cl, n, lens), p, s, k),
    decreases total_bits(s) - p,
{
    if lens.len() < n {
        lemma_decode_symbol_cut(s, k, p, cl);
        lemma_walk_advances(s, p, cl, 1, 0, 0, 0);
        if let Ok((sym, p1)) = decode_symbol(s, p, cl) {
            if sym < 16 {
                lemma_run_lengths_cut(s, k, p1, cl, n, lens.push(sym as u8));
            } else if sym <= 18 && !(sym == 16 && lens.len() == 0) {
                let value: u8 = if sym == 16 { lens.last() } else { 0 };
                let base: nat = if sym == 18 { 11 } else { 3 };
                let nbits: nat = if sym == 16 { 2 } else if sym == 17 { 3 } else { 7 };
                lemma_read_field_cut(s, k, p1, nbits);
                if let Ok((extra, p2)) = read_field(s, p1, nbits) {
                    let count = base + extra;
                    if lens.len() + count <= n {
                        lemma_run_lengths_cut(s, k, p2, cl, n, lens + Seq::new(count, |j: int| value));
                    }
                }
            }
        }
    }
}

pub proof fn lemma_table_lengths_cut(s: Seq<u8>, k: int, p: int, cl: CodeTable, n: nat)
    requires
        0 <= k <= s.len(),
        0 <= p,
        p <= total_bits(s),
    ensures
        cut_agrees(table_lengths(s, p, cl, n), table_lengths(s.take(k), p, cl, n), p, s, k),
{
    lemma_run_lengths_cut(s, k, p, cl, n, seq![]);
}

pub proof fn lemma_code_length_lengths_cut(s: Seq<u8>, k: int, p: int, i: int, ncode: int, lens: Seq<u8>)
    requires
        0 <= k <= s.len(),
        0 <= p,
        p <= total_bits(s),
    ensures
        cut_agrees(
            code_length_lengths(s, p, i, ncode, lens),
            code_length_lengths(s.take(k), p, i, ncode, lens),
            p,
            s,
            k,
        ),
    decreases ncode - i,
{
    if i < ncode {
        lemma_read_field_cut(s, k, p, 3);
        if let Ok((v, p1)) = read_field(s, p, 3) {
            lemma_code_length_lengths_cut(
                s,
                k,
                p1,
                i + 1,
                ncode,
                lens.update(crate::bitstream::code_length_order()[i] as int, v as u8),
            );
        }
    }
}

pub proof fn lemma_dynamic_block_cut(s: Seq<u8>, k: int, p: int, out: Seq<u8>)
    requires
        0 <= k <= s.len(),
        0 <= p,
    ensures
        cut_agrees_out(dynamic_block(s, p, out), dynamic_block(s.take(k), p, out), p, s, k),
{
    lemma_read_field_cut(s, k, p, 5);
    if let Ok((hlit, p1)) = read_field(s, p, 5) {
        lemma_read_field_cut(s, k, p1, 5);
        if let Ok((hdist, p2)) = read_field(s, p1, 5) {
            lemma_read_field_cut(s, k, p2, 4);
            if let Ok((hclen, p3)) = read_field(s, p2, 4) {
                if !(hlit + 257 > 286 || hdist + 1 > 30) {
                    let zeros = Seq::new(19, |j: int| 0u8);
                    lemma_code_length_lengths_cut(s, k, p3, 0, hclen + 4int, zeros);
                    if let Ok((p4, cl)) = code_length_lengths(s, p3, 0, hclen + 4int, zeros) {
                        if kraft_ok(cl) {
                            lemma_table_lengths_cut(s, k, p4, canonical_table(cl), hlit + 257nat);
                            if let Ok((p5, ll)) = table_lengths(s, p4, canonical_table(cl), hlit + 257nat) {
                                lemma_table_lengths_cut(s, k, p5, canonical_table(cl), hdist + 1nat);
                                if let Ok((p6, dl)) = table_lengths(s, p5, canonical_table(cl), hdist + 1nat) {
                                    lemma_block_body_cut(s, k, p6, out, canonical_table(ll), canonical_table(dl));
                                }
                            }
                        }
                    }
                }
            }
        }
    }
}

pub proof fn lemma_inflate_from_cut(s: Seq<u8>, k: int, p: int, out: Seq<u8>)
    requires
        0 <= k <= s.len(),
        0 <= p,
    ensures
        cut_agrees_out(inflate_from(s, p, out), inflate_from(s.take(k), p, out), p, s, k),
    decreases total_bits(s) - p,
{
    lemma_read_field_cut(s, k, p, 1);
    if let Ok((last, p1)) = read_field(s, p, 1) {
        lemma_read_field_cut(s, k, p1, 2);
        if let Ok((kind, p2)) = read_field(s, p1, 2) {
            lemma_fixed_block_cut(s, k, p2, out);
            lemma_dynamic_block_cut(s, k, p2, out);
            lemma_stored_block_cut(s, k, p2, out);
            let block = if kind == 0 {
                stored_block(s, p2, out)
            } else if kind == 1 {
                fixed_block(s, p2, out)
            } else if kind == 2 {
                dynamic_block(s, p2, out)
            } else {
                Err((InflateError::MalformedHeader, out))
            };
            if let Ok((p3, out3)) = block {
                if last != 1 {
                    lemma_inflate_from_cut(s, k, p3, out3);
                }
            }
        }
    }
}

/// A stream cut anywhere before the last bit that decoding reads fails to
/// decode, with `EndOfInput`; cut after that bit, it decodes as before.
pub proof fn lemma_truncated_stream_fails(s: Seq<u8>, k: int)
    requires
        0 <= k <= s.len(),
        inflate_spec(s).is_ok(),
    ensures
        end_pos(inflate_spec(s)) > 8 * k ==> inflate_spec(s.take(k)) matches Err((InflateError::EndOfInput, _)),
        end_pos(inflate_spec(s)) <= 8 * k ==> inflate_spec(s.take(k)) == inflate_spec(s),
{
    lemma_inflate_from_cut(s, k, 0, seq![]);
}

} // verus!
