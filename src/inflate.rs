//! The decode session: bit reading, symbol decoding, block parsing and the
//! block loop.
use vstd::prelude::*;
use crate::bitstream::{
    bit_at, bits_value, distance_base, distance_bases, distance_extra, distance_extra_bits,
    lemma_pow2_le_16, length_base, length_bases, length_extra, length_extra_bits, pow2, read_field,
    total_bits, InflateError,
};
use crate::bitstream::code_length_order;
use crate::bitstream::code_length_slot;
use crate::huffman::{
    lemma_walk_advances, canonical_table, decode_symbol, huffman_new, kraft_ok, lemma_sum_counts_mono, lengths_valid,
    sum_counts, walk, CodeTable, HuffmanTable,
};
use vstd::arithmetic::div_mod::lemma_mod_add_multiples_vanish;
use crate::truncation::{lemma_dynamic_block_cut, lemma_fixed_block_cut, lemma_stored_block_cut};

verus! {

proof fn lemma_shift_step(x: u8, k: u8)
    by (bit_vector)
    requires
        k < 8,
    ensures
        (x >> k) >> 1u8 == x >> ((k + 1) as u8),
{
}

/// What decoding blocks comes to: on success the position after them and the
/// output then; on failure the error and the output at the point of failure.
pub type Outcome = Result<(int, Seq<u8>), (InflateError, Seq<u8>)>;

/// `b` begins with `a`: output, once written, is kept.
pub open spec fn starts_with(b: Seq<u8>, a: Seq<u8>) -> bool {
    &&& a.len() <= b.len()
    &&& forall|i: int| 0 <= i < a.len() ==> b[i] == a[i]
}

/// `out` followed by `len` bytes copied one at a time from `dist` bytes back,
/// so that a copy longer than its distance repeats the bytes it has just written.
pub open spec fn copy_back(out: Seq<u8>, dist: int, len: nat) -> Seq<u8> {
    out + Seq::new(len, |k: int| out[out.len() - dist + k % dist])
}

/// A back-reference at distance 1 repeats the last byte written `len`
/// times: each copied byte is the source of the next.
pub proof fn lemma_copy_distance_one(out: Seq<u8>, len: nat)
    requires
        out.len() >= 1,
    ensures
        copy_back(out, 1, len) == out + Seq::new(len, |k: int| out.last()),
{
    assert forall|k: int| 0 <= k < len implies #[trigger] (k % 1) == 0 by {}
    assert(copy_back(out, 1, len) =~= out + Seq::new(len, |k: int| out.last()));
}

/// Decoding the body of a block from bit `p`, with `out` produced so far,
/// up to and including its end-of-block symbol: the position after the
/// block and the output then.
pub open spec fn block_body(
    s: Seq<u8>,
    p: int,
    out: Seq<u8>,
    lit: CodeTable,
    dist: CodeTable,
) -> Outcome
    decreases total_bits(s) - p,
{
    match decode_symbol(s, p, lit) {
        Err(e) => Err((e, out)),
        Ok((sym, p1)) => {
            proof {
                lemma_walk_advances(s, p, lit, 1, 0, 0, 0);
            }
            if sym < 256 {
                block_body(s, p1, out.push(sym as u8), lit, dist)
            } else if sym == 256 {
                Ok((p1, out))
            } else if sym < 286 {
                let idx = sym - 257;
                match read_field(s, p1, length_extra_bits()[idx] as nat) {
                    Err(e) => Err((e, out)),
                    Ok((extra, p2)) => match decode_symbol(s, p2, dist) {
                        Err(e) => Err((e, out)),
                        Ok((dsym, p3)) => {
                            if dsym >= 30 {
                                Err((InflateError::MalformedBlock, out))
                            } else {
                                match read_field(s, p3, distance_extra_bits()[dsym as int] as nat) {
                                    Err(e) => Err((e, out)),
                                    Ok((dextra, p4)) => {
                                        let len = length_bases()[idx] as nat + extra;
                                        let d = distance_bases()[dsym as int] as int + dextra;
                                        proof {
                                            lemma_walk_advances(s, p2, dist, 1, 0, 0, 0);
                                        }
                                        if d < 1 || d > out.len() {
                                            Err((InflateError::InvalidDistance, out))
                                        } else {
                                            block_body(s, p4, copy_back(out, d, len), lit, dist)
                                        }
                                    },
                                }
                            }
                        },
                    },
                }
            } else {
                Err((InflateError::MalformedBlock, out))
            }
        },
    }
}

/// A length/distance pair whose distance reaches back before the start of
/// the output ends the block with `InvalidDistance`, reading nothing from it.
pub proof fn lemma_distance_before_start(
    s: Seq<u8>,
    p: int,
    out: Seq<u8>,
    lit: CodeTable,
    dist: CodeTable,
    sym: usize,
    p1: int,
    extra: nat,
    p2: int,
    dsym: usize,
    p3: int,
    dextra: nat,
    p4: int,
)
    requires
        decode_symbol(s, p, lit) == Ok::<(usize, int), InflateError>((sym, p1)),
        257 <= sym < 286,
        read_field(s, p1, length_extra_bits()[sym - 257] as nat) == Ok::<(nat, int), InflateError>((extra, p2)),
        decode_symbol(s, p2, dist) == Ok::<(usize, int), InflateError>((dsym, p3)),
        dsym < 30,
        read_field(s, p3, distance_extra_bits()[dsym as int] as nat) == Ok::<(nat, int), InflateError>((dextra, p4)),
        distance_bases()[dsym as int] + dextra > out.len(),
    ensures
        block_body(s, p, out, lit, dist) == Outcome::Err((InflateError::InvalidDistance, out)),
{
}

/// Decoding a stored block whose header ends at bit `p`: the rest of the
/// current byte is skipped, two 16-bit little-endian fields give the length
/// and its one's complement, and that many bytes follow as they are.
pub open spec fn stored_block(s: Seq<u8>, p: int, out: Seq<u8>) -> Outcome {
    let b = (p + 7) / 8;
    if b + 4 > s.len() {
        Err((InflateError::EndOfInput, out))
    } else {
        let len = s[b] as int + 256 * s[b + 1] as int;
        let nlen = s[b + 2] as int + 256 * s[b + 3] as int;
        if len + nlen != 65535 {
            Err((InflateError::MalformedHeader, out))
        } else if b + 4 + len > s.len() {
            Err((InflateError::EndOfInput, out))
        } else {
            Ok((8 * (b + 4 + len), out + s.subrange(b + 4, b + 4 + len)))
        }
    }
}

/// Code lengths of the fixed literal/length code.
pub open spec fn fixed_literal_lengths() -> Seq<u8> {
    Seq::new(
        288,
        |i: int|
            if i < 144 {
                8u8
            } else if i < 256 {
                9u8
            } else if i < 280 {
                7u8
            } else {
                8u8
            },
    )
}

/// Code lengths of the fixed distance code.
pub open spec fn fixed_distance_lengths() -> Seq<u8> {
    Seq::new(30, |i: int| 5u8)
}

/// Decoding the body of a block coded with the fixed tables.
pub open spec fn fixed_block(s: Seq<u8>, p: int, out: Seq<u8>) -> Outcome {
    if kraft_ok(fixed_literal_lengths()) && kraft_ok(fixed_distance_lengths()) {
        block_body(
            s,
            p,
            out,
            canonical_table(fixed_literal_lengths()),
            canonical_table(fixed_distance_lengths()),
        )
    } else {
        Err((InflateError::InvalidHuffmanLengths, out))
    }
}

/// Reading run-length coded code lengths with the code-length table `cl`
/// until `n` are known, `lens` being those read so far: the position after
/// them and all `n` lengths.
pub open spec fn run_lengths(s: Seq<u8>, p: int, cl: CodeTable, n: nat, lens: Seq<u8>) -> Result<(int, Seq<u8>), InflateError>
    decreases total_bits(s) - p,
{
    if lens.len() >= n {
        Ok((p, lens))
    } else {
        match decode_symbol(s, p, cl) {
            Err(e) => Err(e),
            Ok((sym, p1)) => {
                proof {
                    lemma_walk_advances(s, p, cl, 1, 0, 0, 0);
                }
                if sym < 16 {
                    run_lengths(s, p1, cl, n, lens.push(sym as u8))
                } else if sym <= 18 {
                    if sym == 16 && lens.len() == 0 {
                        Err(InflateError::MalformedHeader)
                    } else {
                        let value: u8 = if sym == 16 { lens.last() } else { 0 };
                        let base: nat = if sym == 18 { 11 } else { 3 };
                        let nbits: nat = if sym == 16 { 2 } else if sym == 17 { 3 } else { 7 };
                        match read_field(s, p1, nbits) {
                            Err(e) => Err(e),
                            Ok((extra, p2)) => {
                                let count = base + extra;
                                if lens.len() + count > n {
                                    Err(InflateError::MalformedHeader)
                                } else {
                                    run_lengths(s, p2, cl, n, lens + Seq::new(count, |k: int| value))
                                }
                            },
                        }
                    }
                } else {
                    Err(InflateError::MalformedHeader)
                }
            },
        }
    }
}

/// Reading the `n` code lengths of one table of a dynamic block; they must
/// not be over-subscribed.
pub open spec fn table_lengths(s: Seq<u8>, p: int, cl: CodeTable, n: nat) -> Result<(int, Seq<u8>), InflateError> {
    match run_lengths(s, p, cl, n, seq![]) {
        Err(e) => Err(e),
        Ok((p1, lens)) => {
            if kraft_ok(lens) {
                Ok((p1, lens))
            } else {
                Err(InflateError::InvalidHuffmanLengths)
            }
        },
    }
}

/// `res` read the code lengths of a table that ends at `pos`, and `t` is the
/// canonical table for them.
pub open spec fn read_table(res: Result<(int, Seq<u8>), InflateError>, pos: int, t: CodeTable) -> bool {
    match res {
        Ok((p1, lens)) => p1 == pos && t == canonical_table(lens),
        Err(_) => false,
    }
}

/// Reading the 3-bit code-length code lengths with index `i` to `ncode - 1`,
/// each stored in its slot of the transmission order.
pub open spec fn code_length_lengths(s: Seq<u8>, p: int, i: int, ncode: int, lens: Seq<u8>) -> Result<(int, Seq<u8>), InflateError>
    decreases ncode - i,
{
    if i >= ncode {
        Ok((p, lens))
    } else {
        match read_field(s, p, 3) {
            Err(e) => Err(e),
            Ok((v, p1)) => code_length_lengths(
                s,
                p1,
                i + 1,
                ncode,
                lens.update(code_length_order()[i] as int, v as u8),
            ),
        }
    }
}

/// The 5/5/4-bit counts of a dynamic header at `p` are all present and ask
/// for more literal/length or distance codes than the format has.
pub open spec fn header_out_of_range(s: Seq<u8>, p: int) -> bool {
    match (read_field(s, p, 5), read_field(s, p + 5, 5), read_field(s, p + 10, 4)) {
        (Ok((hlit, _)), Ok((hdist, _)), Ok(_)) => hlit + 257 > 286 || hdist + 1 > 30,
        _ => false,
    }
}

/// Decoding the header and body of a block coded with dynamic tables.
pub open spec fn dynamic_block(s: Seq<u8>, p: int, out: Seq<u8>) -> Outcome {
    match read_field(s, p, 5) {
        Err(e) => Err((e, out)),
        Ok((hlit, p1)) => match read_field(s, p1, 5) {
            Err(e) => Err((e, out)),
            Ok((hdist, p2)) => match read_field(s, p2, 4) {
                Err(e) => Err((e, out)),
                Ok((hclen, p3)) => {
                    if hlit + 257 > 286 || hdist + 1 > 30 {
                        Err((InflateError::MalformedHeader, out))
                    } else {
                        match code_length_lengths(s, p3, 0, hclen + 4int, Seq::new(19, |k: int| 0u8)) {
                            Err(e) => Err((e, out)),
                            Ok((p4, cl)) => {
                                if !kraft_ok(cl) {
                                    Err((InflateError::InvalidHuffmanLengths, out))
                                } else {
                                    match table_lengths(s, p4, canonical_table(cl), hlit + 257nat) {
                                        Err(e) => Err((e, out)),
                                        Ok((p5, ll)) => match table_lengths(s, p5, canonical_table(cl), hdist + 1nat) {
                                            Err(e) => Err((e, out)),
                                            Ok((p6, dl)) => block_body(
                                                s,
                                                p6,
                                                out,
                                                canonical_table(ll),
                                                canonical_table(dl),
                                            ),
                                        },
                                    }
                                }
                            },
                        }
                    }
                },
            },
        },
    }
}

/// A block that decodes ends within the stream, not before it starts.
pub proof fn lemma_block_ends_within(s: Seq<u8>, p: int, out: Seq<u8>, kind: nat)
    requires
        0 <= p,
    ensures
        kind == 0 ==> (stored_block(s, p, out) matches Ok((q, _)) ==> p <= q <= total_bits(s)),
        kind == 1 ==> (fixed_block(s, p, out) matches Ok((q, _)) ==> p <= q <= total_bits(s)),
        kind == 2 ==> (dynamic_block(s, p, out) matches Ok((q, _)) ==> p <= q <= total_bits(s)),
{
    let k = s.len() as int;
    lemma_stored_block_cut(s, k, p, out);
    lemma_fixed_block_cut(s, k, p, out);
    lemma_dynamic_block_cut(s, k, p, out);
}

/// Decoding blocks from bit `p` with `out` produced so far, until a block
/// marked final is complete: the position after it and the whole output.
pub open spec fn inflate_from(s: Seq<u8>, p: int, out: Seq<u8>) -> Outcome
    decreases total_bits(s) - p
        when p >= 0

{
    match read_field(s, p, 1) {
        Err(e) => Err((e, out)),
        Ok((last, p1)) => match read_field(s, p1, 2) {
            Err(e) => Err((e, out)),
            Ok((kind, p2)) => {
                let block = if kind == 0 {
                    stored_block(s, p2, out)
                } else if kind == 1 {
                    fixed_block(s, p2, out)
                } else if kind == 2 {
                    dynamic_block(s, p2, out)
                } else {
                    Err((InflateError::MalformedHeader, out))
                };
                match block {
                    Err(f) => Err(f),
                    Ok((p3, out3)) => {
                        proof {
                            lemma_block_ends_within(s, p2, out, kind);
                        }
                        if last == 1 {
                            Ok((p3, out3))
                        } else {
                            inflate_from(s, p3, out3)
                        }
                    },
                }
            },
        },
    }
}

/// The result of decoding the whole stream `s`: where the data ends, and the
/// decompressed bytes.
pub open spec fn inflate_spec(s: Seq<u8>) -> Outcome {
    inflate_from(s, 0, seq![])
}

/// A decode session over one compressed input: the input, the reading
/// position within it, and the output produced so far.
pub struct DeflateStream {
    pub input: Vec<u8>,
    /// Bytes of `input` already taken into the bit buffer.
    pub byte_pos: usize,
    /// The bits of the last byte taken that are not consumed yet, lowest first.
    pub bit_buf: u8,
    /// How many bits `bit_buf` still holds.
    pub bit_count: u8,
    /// The decompressed bytes.
    pub write_buf: Vec<u8>,
}

/// Creates a session that decodes `input` from its first bit.
pub fn new(input: Vec<u8>) -> (r: DeflateStream)
    ensures
        r.wf(),
        r.data() == input@,
        r.pos() == 0,
        r.write_buf@ == Seq::<u8>::empty(),
{
    DeflateStream { input, byte_pos: 0, bit_buf: 0, bit_count: 0, write_buf: Vec::new() }
}

impl DeflateStream {
    /// The compressed input.
    pub open spec fn data(&self) -> Seq<u8> {
        self.input@
    }

    /// Number of input bits consumed so far.
    pub open spec fn pos(&self) -> int {
        8 * self.byte_pos - self.bit_count
    }

    /// The bit buffer holds the unread high bits of the last byte taken.
    pub open spec fn wf(&self) -> bool {
        &&& self.byte_pos <= self.input@.len()
        &&& self.bit_count < 8
        &&& self.bit_count > 0 ==> self.byte_pos > 0 && self.bit_buf == self.input@[self.byte_pos - 1]
            >> ((8 - self.bit_count) as u8)
    }

    /// The position is within the input.
    pub proof fn lemma_pos_bounds(&self)
        requires
            self.wf(),
        ensures
            0 <= self.pos() <= total_bits(self.data()),
    {
    }

    /// `r`, returned by a method, reports the outcome `expected`: on success
    /// the session stands at the position and holds the output given there;
    /// on failure it holds the output given with the error.
    pub open spec fn reports(&self, r: Result<(), InflateError>, expected: Outcome) -> bool {
        match r {
            Ok(_) => expected == Outcome::Ok((self.pos(), self.write_buf@)),
            Err(e) => expected == Outcome::Err((e, self.write_buf@)),
        }
    }

    /// Reads one bit.
    fn bit(&mut self) -> (r: Result<u8, InflateError>)
        requires
            old(self).wf(),
        ensures
            final(self).wf(),
            final(self).data() == old(self).data(),
            final(self).write_buf == old(self).write_buf,
            final(self).pos() >= old(self).pos(),
            match r {
                Ok(b) => {
                    &&& old(self).pos() < total_bits(old(self).data())
                    &&& b == bit_at(old(self).data(), old(self).pos())
                    &&& b <= 1
                    &&& final(self).pos() == old(self).pos() + 1
                },
                Err(e) => e == InflateError::EndOfInput && old(self).pos() >= total_bits(old(self).data()),
            },
    {
        if self.bit_count == 0 {
            if self.byte_pos >= self.input.len() {
                return Err(InflateError::EndOfInput);
            }
            self.bit_buf = self.input[self.byte_pos];
            self.byte_pos += 1;
            self.bit_count = 8;
            proof {
                let x = self.bit_buf;
                assert(x >> 0u8 == x) by (bit_vector);
            }
        }
        let ghost p = self.pos();
        assert(p / 8 == self.byte_pos - 1 && p % 8 == 8 - self.bit_count);
        let b = self.bit_buf & 1;
        proof {
            let x = self.input@[self.byte_pos - 1];
            let k = (8 - self.bit_count) as u8;
            lemma_shift_step(x, k);
            let y = self.bit_buf;
            assert(y & 1 <= 1) by (bit_vector);
        }
        self.bit_buf = self.bit_buf >> 1;
        self.bit_count -= 1;
        Ok(b)
    }

    /// Reads an `n`-bit field, least significant bit first.
    pub fn bits(&mut self, n: u32) -> (r: Result<u32, InflateError>)
        requires
            old(self).wf(),
            n <= 16,
        ensures
            final(self).wf(),
            final(self).data() == old(self).data(),
            final(self).write_buf == old(self).write_buf,
            final(self).pos() >= old(self).pos(),
            r matches Ok(v) ==> v < pow2(n as nat),
            match r {
                Ok(v) => read_field(old(self).data(), old(self).pos(), n as nat) == Ok::<(nat, int), InflateError>((v as nat, final(self).pos())),
                Err(e) => read_field(old(self).data(), old(self).pos(), n as nat) == Err::<(nat, int), InflateError>(e),
            },
    {
        let ghost s = self.data();
        let ghost p0 = self.pos();
        let ghost buf0 = self.write_buf;
        let mut val: u32 = 0;
        let mut weight: u32 = 1;
        let mut i: u32 = 0;
        while i < n
            invariant
                self.wf(),
                self.data() == s,
                self.write_buf == buf0,
                s == old(self).data(),
                buf0 == old(self).write_buf,
                p0 == old(self).pos(),
                i <= n <= 16,
                self.pos() == p0 + i,
                weight == pow2(i as nat),
                val == bits_value(s, p0, i as nat),
                val < weight,
            decreases n - i,
        {
            let b = match self.bit() {
                Ok(b) => b,
                Err(e) => return Err(e),
            };
            proof {
                lemma_pow2_le_16(i as nat);
            }
            assert(bits_value(s, p0, (i + 1) as nat) == bits_value(s, p0, i as nat) + pow2(i as nat) * (b as nat));
            if b == 1 {
                val = val + weight;
            }
            weight = weight * 2;
            i += 1;
        }
        proof {
            self.lemma_pos_bounds();
        }
        Ok(val)
    }

    /// Decodes one symbol with `table`, reading its code bit by bit.
    pub fn parse_symbol(&mut self, table: &HuffmanTable) -> (r: Result<usize, InflateError>)
        requires
            old(self).wf(),
            table.wf(),
        ensures
            final(self).wf(),
            final(self).data() == old(self).data(),
            final(self).write_buf == old(self).write_buf,
            final(self).pos() >= old(self).pos(),
            match r {
                Ok(sym) => {
                    &&& decode_symbol(old(self).data(), old(self).pos(), table@) == Ok::<(usize, int), InflateError>((sym, final(self).pos()))
                    &&& final(self).pos() > old(self).pos()
                },
                Err(e) => decode_symbol(old(self).data(), old(self).pos(), table@) == Err::<(usize, int), InflateError>(e),
            },
            r == Err::<usize, InflateError>(InflateError::InvalidSymbol) ==> final(self).pos() == old(self).pos() + 15,
    {
        let ghost s = self.data();
        let ghost p0 = self.pos();
        let ghost buf0 = self.write_buf;
        let mut code: u32 = 0;
        let mut first: u32 = 0;
        let mut index: usize = 0;
        let mut len: usize = 1;
        while len < 16
            invariant
                self.wf(),
                self.data() == s,
                self.write_buf == buf0,
                s == old(self).data(),
                buf0 == old(self).write_buf,
                p0 == old(self).pos(),
                table.wf(),
                1 <= len <= 16,
                self.pos() == p0 + len - 1,
                first <= 2 * code,
                code < pow2((len - 1) as nat),
                index == sum_counts(table.counts@, len as int),
                walk(s, self.pos(), table@, len as int, code as int, first as int, index as int)
                    == decode_symbol(s, p0, table@),
            decreases 16 - len,
        {
            let b = match self.bit() {
                Ok(b) => b,
                Err(e) => return Err(e),
            };
            proof {
                lemma_pow2_le_16(len as nat);
                lemma_sum_counts_mono(table.counts@, len as int + 1, 16);
            }
            code = 2 * code + b as u32;
            let count = table.counts[len];
            let nsym = table.symbols.len();
            assert(sum_counts(table.counts@, len + 1) == index + count);
            assert(index + count <= nsym);
            if ((code - first) as usize) < count {
                return Ok(table.symbols[index + (code - first) as usize]);
            }
            index += count;
            first = 2 * (first + count as u32);
            len += 1;
        }
        Err(InflateError::InvalidSymbol)
    }

    /// Appends `len` bytes copied from `dist` bytes back, one byte at a time.
    fn copy_match(&mut self, dist: usize, len: usize)
        requires
            old(self).wf(),
            1 <= dist <= old(self).write_buf@.len(),
        ensures
            final(self).wf(),
            final(self).data() == old(self).data(),
            final(self).pos() == old(self).pos(),
            final(self).write_buf@ == copy_back(old(self).write_buf@, dist as int, len as nat),
    {
        let ghost out0 = self.write_buf@;
        let base = self.write_buf.len() - dist;
        let mut i: usize = 0;
        while i < len
            invariant
                self.wf(),
                self.data() == old(self).data(),
                self.pos() == old(self).pos(),
                out0 == old(self).write_buf@,
                1 <= dist <= out0.len(),
                base == out0.len() - dist,
                i <= len,
                self.write_buf@ == copy_back(out0, dist as int, i as nat),
            decreases len - i,
        {
            let cur = self.write_buf.len();
            assert(cur == out0.len() + i);
            let b = self.write_buf[base + i];
            proof {
                let L = out0.len() as int;
                if i >= dist {
                    lemma_mod_add_multiples_vanish(i - dist, dist as int);
                    assert(b == out0[L - dist + (i - dist) % (dist as int)]);
                } else {
                    vstd::arithmetic::div_mod::lemma_small_mod(i as nat, dist as nat);
                    assert(b == out0[L - dist + i]);
                }
                assert(b == out0[L - dist + (i as int) % (dist as int)]);
            }
            self.write_buf.push(b);
            i += 1;
            assert(self.write_buf@ =~= copy_back(out0, dist as int, i as nat));
        }
    }

    /// Decodes a block body with the literal/length table `lit` and the
    /// distance table `dist`, up to its end-of-block symbol. A failed read
    /// passes its own error on (`EndOfInput`, `InvalidSymbol`); a symbol that
    /// the format does not define gives `MalformedBlock`.
    pub fn decode(&mut self, lit: &HuffmanTable, dist: &HuffmanTable) -> (r: Result<(), InflateError>)
        requires
            old(self).wf(),
            lit.wf(),
            dist.wf(),
        ensures
            final(self).wf(),
            final(self).data() == old(self).data(),
            final(self).pos() >= old(self).pos(),
            starts_with(final(self).write_buf@, old(self).write_buf@),
            final(self).reports(r, block_body(old(self).data(), old(self).pos(), old(self).write_buf@, lit@, dist@)),
    {
        let ghost s = self.data();
        let ghost expected = block_body(s, self.pos(), self.write_buf@, lit@, dist@);
        loop
            invariant
                self.wf(),
                lit.wf(),
                dist.wf(),
                self.data() == s,
                s == old(self).data(),
                self.pos() >= old(self).pos(),
                starts_with(self.write_buf@, old(self).write_buf@),
                expected == block_body(old(self).data(), old(self).pos(), old(self).write_buf@, lit@, dist@),
                block_body(s, self.pos(), self.write_buf@, lit@, dist@) == expected,
            decreases total_bits(s) - self.pos(),
        {
            let sym = match self.parse_symbol(lit) {
                Ok(v) => v,
                Err(e) => return Err(e),
            };
            proof {
                self.lemma_pos_bounds();
            }
            if sym < 256 {
                self.write_buf.push(sym as u8);
            } else if sym == 256 {
                return Ok(());
            } else if sym < 286 {
                let idx = sym - 257;
                let extra = match self.bits(length_extra(idx) as u32) {
                    Ok(v) => v,
                    Err(e) => return Err(e),
                };
                proof {
                    lemma_pow2_le_16(length_extra_bits()[idx as int] as nat);
                }
                let dsym = match self.parse_symbol(dist) {
                    Ok(v) => v,
                    Err(e) => return Err(e),
                };
                if dsym >= 30 {
                    return Err(InflateError::MalformedBlock);
                }
                let dextra = match self.bits(distance_extra(dsym) as u32) {
                    Ok(v) => v,
                    Err(e) => return Err(e),
                };
                proof {
                    lemma_pow2_le_16(distance_extra_bits()[dsym as int] as nat);
                    self.lemma_pos_bounds();
                }
                let len = length_base(idx) as usize + extra as usize;
                let d = distance_base(dsym) as usize + dextra as usize;
                if d < 1 || d > self.write_buf.len() {
                    return Err(InflateError::InvalidDistance);
                }
                self.copy_match(d, len);
            } else {
                return Err(InflateError::MalformedBlock);
            }
        }
    }

    /// Decodes a stored block: skips to the next byte boundary, checks the
    /// length against its complement and copies that many bytes.
    pub fn stored(&mut self) -> (r: Result<(), InflateError>)
        requires
            old(self).wf(),
        ensures
            final(self).wf(),
            final(self).data() == old(self).data(),
            final(self).pos() >= old(self).pos(),
            starts_with(final(self).write_buf@, old(self).write_buf@),
            final(self).reports(r, stored_block(old(self).data(), old(self).pos(), old(self).write_buf@)),
    {
        let ghost s = self.data();
        let ghost out0 = self.write_buf@;
        assert((self.pos() + 7) / 8 == self.byte_pos);
        self.bit_count = 0;
        self.bit_buf = 0;
        let b = self.byte_pos;
        let n = self.input.len();
        if n - b < 4 {
            return Err(InflateError::EndOfInput);
        }
        let len = self.input[b] as usize + 256 * self.input[b + 1] as usize;
        let nlen = self.input[b + 2] as usize + 256 * self.input[b + 3] as usize;
        if len + nlen != 65535 {
            return Err(InflateError::MalformedHeader);
        }
        if n - (b + 4) < len {
            return Err(InflateError::EndOfInput);
        }
        let start = b + 4;
        let mut i: usize = 0;
        while i < len
            invariant
                self.input@ == s,
                s == old(self).data(),
                n == s.len(),
                self.byte_pos == b,
                self.bit_count == 0,
                8 * b >= old(self).pos(),
                start == b + 4,
                start + len <= n,
                i <= len,
                self.write_buf@ == out0 + s.subrange(start as int, start + i),
            decreases len - i,
        {
            let byte = self.input[start + i];
            self.write_buf.push(byte);
            i += 1;
            assert(self.write_buf@ =~= out0 + s.subrange(start as int, start + i));
        }
        self.byte_pos = start + len;
        Ok(())
    }

    /// Decodes the body of a block coded with the fixed tables.
    pub fn fixed(&mut self) -> (r: Result<(), InflateError>)
        requires
            old(self).wf(),
        ensures
            final(self).wf(),
            final(self).data() == old(self).data(),
            final(self).pos() >= old(self).pos(),
            starts_with(final(self).write_buf@, old(self).write_buf@),
            final(self).reports(r, fixed_block(old(self).data(), old(self).pos(), old(self).write_buf@)),
    {
        let mut lengths: Vec<u8> = Vec::new();
        let mut i: usize = 0;
        while i < 288
            invariant
                i <= 288,
                lengths@.len() == i,
                forall|k: int| 0 <= k < i ==> lengths@[k] == fixed_literal_lengths()[k],
            decreases 288 - i,
        {
            let len: u8 = if i < 144 {
                8
            } else if i < 256 {
                9
            } else if i < 280 {
                7
            } else {
                8
            };
            lengths.push(len);
            i += 1;
        }
        assert(lengths@ =~= fixed_literal_lengths());
        let mut dists: Vec<u8> = Vec::new();
        let mut i: usize = 0;
        while i < 30
            invariant
                i <= 30,
                dists@.len() == i,
                forall|k: int| 0 <= k < i ==> dists@[k] == 5u8,
            decreases 30 - i,
        {
            dists.push(5);
            i += 1;
        }
        assert(dists@ =~= fixed_distance_lengths());
        let lit = huffman_new(lengths.as_slice());
        let dist = huffman_new(dists.as_slice());
        match (lit, dist) {
            (Some(lit), Some(dist)) => self.decode(&lit, &dist),
            _ => Err(InflateError::InvalidHuffmanLengths),
        }
    }

    /// Reads the run-length coded code lengths of one table of a dynamic
    /// block with the code-length table `cl`, and builds that table.
    pub fn dyn_table(&mut self, cl: &HuffmanTable, n: usize) -> (r: Result<HuffmanTable, InflateError>)
        requires
            old(self).wf(),
            cl.wf(),
        ensures
            final(self).wf(),
            final(self).data() == old(self).data(),
            final(self).write_buf == old(self).write_buf,
            final(self).pos() >= old(self).pos(),
            match r {
                Ok(t) => t.wf() && read_table(table_lengths(old(self).data(), old(self).pos(), cl@, n as nat), final(self).pos(), t@),
                Err(e) => table_lengths(old(self).data(), old(self).pos(), cl@, n as nat) == Err::<(int, Seq<u8>), InflateError>(e),
            },
    {
        let ghost s = self.data();
        let ghost expected = run_lengths(s, self.pos(), cl@, n as nat, seq![]);
        let mut lengths: Vec<u8> = Vec::new();
        assert(lengths@ =~= seq![]);
        while lengths.len() < n
            invariant
                self.wf(),
                cl.wf(),
                self.data() == s,
                s == old(self).data(),
                self.write_buf == old(self).write_buf,
                self.pos() >= old(self).pos(),
                expected == run_lengths(s, old(self).pos(), cl@, n as nat, seq![]),
                lengths_valid(lengths@),
                lengths@.len() <= n,
                run_lengths(s, self.pos(), cl@, n as nat, lengths@) == expected,
            decreases total_bits(s) - self.pos(),
        {
            let sym = match self.parse_symbol(cl) {
                Ok(v) => v,
                Err(e) => return Err(e),
            };
            proof {
                self.lemma_pos_bounds();
            }
            if sym < 16 {
                lengths.push(sym as u8);
            } else if sym <= 18 {
                if sym == 16 && lengths.len() == 0 {
                    return Err(InflateError::MalformedHeader);
                }
                let value: u8 = if sym == 16 {
                    lengths[lengths.len() - 1]
                } else {
                    0
                };
                let base: usize = if sym == 18 {
                    11
                } else {
                    3
                };
                let nbits: u32 = if sym == 16 {
                    2
                } else if sym == 17 {
                    3
                } else {
                    7
                };
                let extra = match self.bits(nbits) {
                    Ok(v) => v,
                    Err(e) => return Err(e),
                };
                proof {
                    lemma_pow2_le_16(nbits as nat);
                }
                let count = base + extra as usize;
                if count > n - lengths.len() {
                    return Err(InflateError::MalformedHeader);
                }
                let ghost before = lengths@;
                let mut j: usize = 0;
                while j < count
                    invariant
                        j <= count,
                        value <= 15,
                        lengths@ == before + Seq::new(j as nat, |k: int| value),
                        lengths_valid(before),
                    decreases count - j,
                {
                    lengths.push(value);
                    j += 1;
                    assert(lengths@ =~= before + Seq::new(j as nat, |k: int| value));
                }
                assert(lengths_valid(lengths@));
            } else {
                return Err(InflateError::MalformedHeader);
            }
        }
        match huffman_new(lengths.as_slice()) {
            Some(t) => Ok(t),
            None => Err(InflateError::InvalidHuffmanLengths),
        }
    }

    /// Decodes the header and body of a block coded with dynamic tables.
    pub fn dynamic(&mut self) -> (r: Result<(), InflateError>)
        requires
            old(self).wf(),
        ensures
            final(self).wf(),
            final(self).data() == old(self).data(),
            final(self).pos() >= old(self).pos(),
            starts_with(final(self).write_buf@, old(self).write_buf@),
            final(self).reports(r, dynamic_block(old(self).data(), old(self).pos(), old(self).write_buf@)),
            header_out_of_range(old(self).data(), old(self).pos()) ==> final(self).pos() == old(self).pos() + 14,
    {
        let ghost s = self.data();
        let ghost p0 = self.pos();
        let hlit = match self.bits(5) {
            Ok(v) => v,
            Err(e) => return Err(e),
        };
        let ghost p1 = self.pos();
        let hdist = match self.bits(5) {
            Ok(v) => v,
            Err(e) => return Err(e),
        };
        let ghost p2 = self.pos();
        let hclen = match self.bits(4) {
            Ok(v) => v,
            Err(e) => return Err(e),
        };
        proof {
            reveal_with_fuel(pow2, 6);
        }
        let nlen = hlit as usize + 257;
        let ndist = hdist as usize + 1;
        let ncode = hclen as usize + 4;
        if nlen > 286 || ndist > 30 {
            return Err(InflateError::MalformedHeader);
        }
        let mut lengths: Vec<u8> = Vec::new();
        let mut k: usize = 0;
        while k < 19
            invariant
                k <= 19,
                lengths@.len() == k,
                forall|j: int| 0 <= j < k ==> lengths@[j] == 0u8,
            decreases 19 - k,
        {
            lengths.push(0);
            k += 1;
        }
        assert(lengths@ =~= Seq::new(19, |j: int| 0u8));
        let ghost p3 = self.pos();
        let ghost expected = code_length_lengths(s, p3, 0, ncode as int, lengths@);
        let mut i: usize = 0;
        while i < ncode
            invariant
                self.wf(),
                self.data() == s,
                s == old(self).data(),
                self.write_buf == old(self).write_buf,
                self.pos() >= old(self).pos(),
                ncode <= 19,
                i <= ncode,
                lengths@.len() == 19,
                forall|j: int| 0 <= j < 19 ==> lengths@[j] <= 7,
                p0 == old(self).pos(),
                read_field(s, p0, 5) == Ok::<(nat, int), InflateError>((hlit as nat, p1)),
                read_field(s, p1, 5) == Ok::<(nat, int), InflateError>((hdist as nat, p2)),
                read_field(s, p2, 4) == Ok::<(nat, int), InflateError>((hclen as nat, p3)),
                ncode == hclen + 4,
                hlit + 257 <= 286,
                hdist + 1 <= 30,
                expected == code_length_lengths(s, p3, 0, ncode as int, Seq::new(19, |j: int| 0u8)),
                code_length_lengths(s, self.pos(), i as int, ncode as int, lengths@) == expected,
            decreases ncode - i,
        {
            let v = match self.bits(3) {
                Ok(v) => v,
                Err(e) => return Err(e),
            };
            proof {
                reveal_with_fuel(pow2, 4);
            }
            let slot = code_length_slot(i) as usize;
            proof {
                assert(code_length_order().len() == 19);
                assert(forall|j: int| 0 <= j < 19 ==> code_length_order()[j] < 19);
            }
            lengths.set(slot, v as u8);
            i += 1;
        }
        let code_len_table = match huffman_new(lengths.as_slice()) {
            Some(t) => t,
            None => return Err(InflateError::InvalidHuffmanLengths),
        };
        let lit = match self.dyn_table(&code_len_table, nlen) {
            Ok(t) => t,
            Err(e) => return Err(e),
        };
        let dist = match self.dyn_table(&code_len_table, ndist) {
            Ok(t) => t,
            Err(e) => return Err(e),
        };
        self.decode(&lit, &dist)
    }

    /// Decodes blocks until one marked final is complete; the output is then
    /// in `write_buf`.
    pub fn inflate(&mut self) -> (r: Result<(), InflateError>)
        requires
            old(self).wf(),
        ensures
            final(self).wf(),
            final(self).data() == old(self).data(),
            starts_with(final(self).write_buf@, old(self).write_buf@),
            final(self).reports(r, inflate_from(old(self).data(), old(self).pos(), old(self).write_buf@)),
    {
        let ghost s = self.data();
        let ghost expected = inflate_from(s, self.pos(), self.write_buf@);
        loop
            invariant
                self.wf(),
                self.data() == s,
                s == old(self).data(),
                expected == inflate_from(s, old(self).pos(), old(self).write_buf@),
                starts_with(self.write_buf@, old(self).write_buf@),
                inflate_from(s, self.pos(), self.write_buf@) == expected,
            decreases total_bits(s) - self.pos(),
        {
            let last = match self.bits(1) {
                Ok(v) => v,
                Err(e) => return Err(e),
            };
            let kind = match self.bits(2) {
                Ok(v) => v,
                Err(e) => return Err(e),
            };
            let block = if kind == 0 {
                self.stored()
            } else if kind == 1 {
                self.fixed()
            } else if kind == 2 {
                self.dynamic()
            } else {
                Err(InflateError::MalformedHeader)
            };
            match block {
                Err(e) => return Err(e),
                Ok(()) => {},
            }
            proof {
                self.lemma_pos_bounds();
            }
            if last == 1 {
                return Ok(());
            }
        }
    }
}

} // verus!
