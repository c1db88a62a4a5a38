//! Canonical Huffman tables built from per-symbol code lengths.
use vstd::prelude::*;
use crate::bitstream::{bit_at, lemma_pow2_le_16, pow2, total_bits, InflateError};

verus! {

/// Number of symbols below `i` whose code length is `l`.
pub open spec fn rank(lens: Seq<u8>, l: int, i: int) -> nat
    decreases i,
{
    if i <= 0 {
        0
    } else {
        rank(lens, l, i - 1) + if lens[i - 1] as int == l { 1nat } else { 0nat }
    }
}

/// Number of symbols below `i` whose code length is at least 1 and below `l`.
pub open spec fn below(lens: Seq<u8>, i: int, l: int) -> nat
    decreases i,
{
    if i <= 0 {
        0
    } else {
        below(lens, i - 1, l) + if 1 <= lens[i - 1] && (lens[i - 1] as int) < l {
            1nat
        } else {
            0nat
        }
    }
}

/// The symbols below `i` whose code length is `l`, in ascending order.
pub open spec fn same_length_symbols(lens: Seq<u8>, l: int, i: int) -> Seq<usize>
    decreases i,
{
    if i <= 0 {
        seq![]
    } else if lens[i - 1] as int == l {
        same_length_symbols(lens, l, i - 1).push((i - 1) as usize)
    } else {
        same_length_symbols(lens, l, i - 1)
    }
}

/// All symbols with a code length from 1 to `l`: shorter codes first, and
/// among codes of one length, lower symbols first.
pub open spec fn canonical_upto(lens: Seq<u8>, l: int) -> Seq<usize>
    decreases l,
{
    if l <= 0 {
        seq![]
    } else {
        canonical_upto(lens, l - 1) + same_length_symbols(lens, l, lens.len() as int)
    }
}

/// The symbols in the order in which the canonical code assigns them codes.
pub open spec fn canonical_symbols(lens: Seq<u8>) -> Seq<usize> {
    canonical_upto(lens, 15)
}

/// For each length from 0 to 15, the number of symbols with that code length.
pub open spec fn length_counts(lens: Seq<u8>) -> Seq<usize> {
    Seq::new(16, |l: int| rank(lens, l, lens.len() as int) as usize)
}

/// Codes of lengths up to `l` still unassigned, counted as codes of length
/// `l`; negative once more codes are asked for than exist.
pub open spec fn kraft_left(counts: Seq<usize>, l: int) -> int
    decreases l,
{
    if l <= 0 {
        1
    } else {
        2 * kraft_left(counts, l - 1) - counts[l] as int
    }
}

/// The lengths satisfy the Kraft inequality: they are not over-subscribed.
pub open spec fn kraft_ok(lens: Seq<u8>) -> bool {
    kraft_left(length_counts(lens), 15) >= 0
}

/// Sum of `counts[k]` for `k` from 1 to `l - 1`.
pub open spec fn sum_counts(counts: Seq<usize>, l: int) -> int
    decreases l,
{
    if l <= 1 {
        0
    } else {
        sum_counts(counts, l - 1) + counts[l - 1] as int
    }
}

/// Every code length is at most 15.
pub open spec fn lengths_valid(lens: Seq<u8>) -> bool {
    forall|i: int| 0 <= i < lens.len() ==> lens[i] <= 15
}

/// What a decode table holds: for each code length, how many codes have it,
/// and the symbols in code order.
pub struct CodeTable {
    pub counts: Seq<usize>,
    pub symbols: Seq<usize>,
}

/// The canonical table for the code lengths `lens`.
pub open spec fn canonical_table(lens: Seq<u8>) -> CodeTable {
    CodeTable { counts: length_counts(lens), symbols: canonical_symbols(lens) }
}

/// One step of the canonical decode walk at code length `len`: `code` holds
/// the bits read so far (first bit most significant), `first` the first code
/// of this length and `index` the position of its first symbol.
pub open spec fn walk(
    s: Seq<u8>,
    p: int,
    t: CodeTable,
    len: int,
    code: int,
    first: int,
    index: int,
) -> Result<(usize, int), InflateError>
    decreases 16 - len,
{
    if !(1 <= len <= 15) {
        Err(InflateError::InvalidSymbol)
    } else if p >= total_bits(s) {
        Err(InflateError::EndOfInput)
    } else {
        let c = 2 * code + bit_at(s, p) as int;
        let count = t.counts[len] as int;
        if c - first < count {
            Ok((t.symbols[index + c - first], p + 1))
        } else {
            walk(s, p + 1, t, len + 1, c, 2 * (first + count), index + count)
        }
    }
}

/// A decoded symbol takes at least one bit, and no bit past the stream.
pub proof fn lemma_walk_advances(
    s: Seq<u8>,
    p: int,
    t: CodeTable,
    len: int,
    code: int,
    first: int,
    index: int,
)
    ensures
        walk(s, p, t, len, code, first, index) matches Ok((_, q)) ==> p < q <= total_bits(s),
    decreases 16 - len,
{
    if 1 <= len <= 15 && p < total_bits(s) {
        let c = 2 * code + bit_at(s, p) as int;
        let count = t.counts[len] as int;
        if !(c - first < count) {
            lemma_walk_advances(s, p + 1, t, len + 1, c, 2 * (first + count), index + count);
        }
    }
}

/// Decoding one Huffman-coded symbol at bit `p`: the symbol and the position
/// after its code.
pub open spec fn decode_symbol(s: Seq<u8>, p: int, t: CodeTable) -> Result<(usize, int), InflateError> {
    walk(s, p, t, 1, 0, 0, 0)
}

/// A canonical decode table: how many codes each length has, and the symbols
/// in code order.
pub struct HuffmanTable {
    pub counts: Vec<usize>,
    pub symbols: Vec<usize>,
}

impl HuffmanTable {
    /// The counts cover lengths 0 to 15, and lengths 1 to 15 together
    /// account for every listed symbol.
    pub open spec fn wf(&self) -> bool {
        &&& self.counts@.len() == 16
        &&& sum_counts(self.counts@, 16) == self.symbols@.len()
    }

}

impl View for HuffmanTable {
    type V = CodeTable;

    open spec fn view(&self) -> CodeTable {
        CodeTable { counts: self.counts@, symbols: self.symbols@ }
    }
}

pub proof fn lemma_sum_counts_mono(counts: Seq<usize>, a: int, b: int)
    requires
        1 <= a <= b,
    ensures
        sum_counts(counts, a) <= sum_counts(counts, b),
    decreases b - a,
{
    if a < b {
        lemma_sum_counts_mono(counts, a, b - 1);
    }
}

proof fn lemma_rank_bound(lens: Seq<u8>, l: int, i: int)
    ensures
        rank(lens, l, i) <= if i < 0 { 0 } else { i },
    decreases i,
{
    if i > 0 {
        lemma_rank_bound(lens, l, i - 1);
    }
}

proof fn lemma_rank_mono(lens: Seq<u8>, l: int, i: int, k: int)
    requires
        i <= k,
    ensures
        rank(lens, l, i) <= rank(lens, l, k),
    decreases k - i,
{
    if i < k {
        lemma_rank_mono(lens, l, i, k - 1);
    }
}

proof fn lemma_below_bound(lens: Seq<u8>, i: int, l: int)
    ensures
        below(lens, i, l) <= if i < 0 { 0 } else { i },
    decreases i,
{
    if i > 0 {
        lemma_below_bound(lens, i - 1, l);
    }
}

proof fn lemma_below_one(lens: Seq<u8>, i: int)
    ensures
        below(lens, i, 1) == 0,
    decreases i,
{
    if i > 0 {
        lemma_below_one(lens, i - 1);
    }
}

proof fn lemma_below_step(lens: Seq<u8>, i: int, l: int)
    requires
        1 <= l,
    ensures
        below(lens, i, l + 1) == below(lens, i, l) + rank(lens, l, i),
    decreases i,
{
    if i > 0 {
        lemma_below_step(lens, i - 1, l);
    }
}

proof fn lemma_below_mono(lens: Seq<u8>, i: int, a: int, b: int)
    requires
        1 <= a <= b,
    ensures
        below(lens, i, a) <= below(lens, i, b),
    decreases b,
{
    if a < b {
        lemma_below_mono(lens, i, a, b - 1);
        lemma_below_step(lens, i, b - 1);
    }
}

proof fn lemma_same_length_len(lens: Seq<u8>, l: int, i: int)
    ensures
        same_length_symbols(lens, l, i).len() == rank(lens, l, i),
    decreases i,
{
    if i > 0 {
        lemma_same_length_len(lens, l, i - 1);
    }
}

proof fn lemma_sum_counts_below(lens: Seq<u8>, l: int)
    requires
        1 <= l <= 16,
        lens.len() <= usize::MAX,
    ensures
        sum_counts(length_counts(lens), l) == below(lens, lens.len() as int, l),
    decreases l,
{
    let n = lens.len() as int;
    if l == 1 {
        lemma_below_one(lens, n);
    } else {
        lemma_sum_counts_below(lens, l - 1);
        lemma_below_step(lens, n, l - 1);
        lemma_rank_bound(lens, l - 1, n);
    }
}

proof fn lemma_kraft_negative(counts: Seq<usize>, l: int, m: int)
    requires
        1 <= l <= m,
        kraft_left(counts, l) < 0,
    ensures
        kraft_left(counts, m) < 0,
    decreases m,
{
    if l < m {
        lemma_kraft_negative(counts, l, m - 1);
    }
}

proof fn lemma_canonical_layout(lens: Seq<u8>, symbols: Seq<usize>, l: int)
    requires
        0 <= l <= 15,
        symbols.len() == below(lens, lens.len() as int, 16),
        forall|k: int|
            1 <= k <= 15 ==> #[trigger] symbols.subrange(
                below(lens, lens.len() as int, k) as int,
                below(lens, lens.len() as int, k + 1) as int,
            ) == same_length_symbols(lens, k, lens.len() as int),
    ensures
        symbols.subrange(0, below(lens, lens.len() as int, l + 1) as int) == canonical_upto(lens, l),
    decreases l,
{
    let n = lens.len() as int;
    lemma_below_mono(lens, n, l + 1, 16);
    if l == 0 {
        lemma_below_one(lens, n);
        assert(symbols.subrange(0, 0) =~= Seq::<usize>::empty());
    } else {
        lemma_canonical_layout(lens, symbols, l - 1);
        lemma_below_mono(lens, n, l, l + 1);
        let a = below(lens, n, l) as int;
        let b = below(lens, n, l + 1) as int;
        assert(symbols.subrange(0, b) =~= symbols.subrange(0, a) + symbols.subrange(a, b));
    }
}

/// Builds the canonical decode table for the code lengths `lens`; `None`
/// when the lengths are over-subscribed.
pub fn huffman_new(lens: &[u8]) -> (r: Option<HuffmanTable>)
    requires
        lengths_valid(lens@),
    ensures
        r.is_some() == kraft_ok(lens@),
        r matches Some(t) ==> t.wf() && t@ == canonical_table(lens@),
{
    let n = lens.len();
    let ghost ls = lens@;
    let mut counts: Vec<usize> = Vec::new();
    let mut l: usize = 0;
    while l < 16
        invariant
            l <= 16,
            counts@.len() == l,
            forall|k: int| 0 <= k < l ==> counts@[k] == 0,
        decreases 16 - l,
    {
        counts.push(0);
        l += 1;
    }
    let mut i: usize = 0;
    while i < n
        invariant
            n == ls.len(),
            ls == lens@,
            lengths_valid(ls),
            i <= n,
            counts@.len() == 16,
            forall|k: int| 0 <= k < 16 ==> counts@[k] == rank(ls, k, i as int),
        decreases n - i,
    {
        let len = lens[i] as usize;
        proof {
            lemma_rank_bound(ls, len as int, i as int);
        }
        counts.set(len, counts[len] + 1);
        i += 1;
    }
    proof {
        assert(counts@ =~= length_counts(ls));
    }

    let mut left: u64 = 1;
    let mut l: usize = 1;
    while l < 16
        invariant
            1 <= l <= 16,
            ls == lens@,
            counts@ == length_counts(ls),
            left as int == kraft_left(counts@, l - 1),
            left <= pow2((l - 1) as nat),
        decreases 16 - l,
    {
        proof {
            lemma_pow2_le_16((l - 1) as nat);
        }
        if counts[l] as u64 > 2 * left {
            proof {
                lemma_kraft_negative(counts@, l as int, 15);
            }
            return None;
        }
        left = 2 * left - counts[l] as u64;
        l += 1;
    }

    let mut offs: Vec<usize> = Vec::new();
    offs.push(0);
    offs.push(0);
    proof {
        lemma_below_one(ls, n as int);
    }
    let mut l: usize = 1;
    while l < 15
        invariant
            1 <= l <= 15,
            counts@ == length_counts(ls),
            n == ls.len(),
            offs@.len() == l + 1,
            forall|k: int| 1 <= k <= l ==> offs@[k] == below(ls, n as int, k),
            ls == lens@,
        decreases 15 - l,
    {
        proof {
            lemma_below_step(ls, n as int, l as int);
            lemma_below_bound(ls, n as int, l + 1);
        }
        let next = offs[l] + counts[l];
        offs.push(next);
        l += 1;
    }
    proof {
        lemma_below_step(ls, n as int, 15);
        lemma_below_bound(ls, n as int, 16);
    }
    let total = offs[15] + counts[15];
    let mut symbols: Vec<usize> = Vec::new();
    let mut k: usize = 0;
    while k < total
        invariant
            k <= total,
            symbols@.len() == k,
        decreases total - k,
    {
        symbols.push(0);
        k += 1;
    }

    proof {
        assert forall|k: int| 1 <= k <= 15 implies #[trigger] symbols@.subrange(below(ls, n as int, k) as int, offs@[k] as int)
            == same_length_symbols(ls, k, 0) by {
            lemma_below_mono(ls, n as int, k, 16);
            assert(symbols@.subrange(below(ls, n as int, k) as int, offs@[k] as int) =~= seq![]);
        }
    }
    let mut i: usize = 0;
    while i < n
        invariant
            n == ls.len(),
            ls == lens@,
            lengths_valid(ls),
            i <= n,
            offs@.len() == 16,
            total == below(ls, n as int, 16),
            symbols@.len() == total,
            forall|k: int|
                1 <= k <= 15 ==> #[trigger] offs@[k] == below(ls, n as int, k) + rank(ls, k, i as int),
            forall|k: int|
                1 <= k <= 15 ==> #[trigger] symbols@.subrange(below(ls, n as int, k) as int, offs@[k] as int)
                    == same_length_symbols(ls, k, i as int),
        decreases n - i,
    {
        let len = lens[i] as usize;
        if len != 0 {
            let pos = offs[len];
            proof {
                let L = len as int;
                lemma_rank_mono(ls, L, i + 1, n as int);
                lemma_below_step(ls, n as int, L);
                lemma_below_mono(ls, n as int, L + 1, 16);
                assert forall|k: int| 1 <= k <= 15 implies below(ls, n as int, k) <= #[trigger] offs@[k] <= below(ls, n as int, k + 1) by {
                    lemma_below_step(ls, n as int, k);
                    lemma_rank_mono(ls, k, i as int, n as int);
                }
            }
            let ghost old_syms = symbols@;
            let ghost old_offs = offs@;
            symbols.set(pos, i);
            offs.set(len, pos + 1);
            proof {
                let L = len as int;
                assert forall|k: int| 1 <= k <= 15 implies #[trigger] symbols@.subrange(below(ls, n as int, k) as int, offs@[k] as int)
                    == same_length_symbols(ls, k, i + 1) by {
                    let lo = below(ls, n as int, k) as int;
                    if k == L {
                        assert(old_syms.subrange(lo, old_offs[k] as int) == same_length_symbols(ls, k, i as int));
                        assert(lo <= pos < symbols@.len());
                        assert(same_length_symbols(ls, k, i + 1) == same_length_symbols(ls, k, i as int).push(i));
                        assert(symbols@.subrange(lo, offs@[k] as int) =~= old_syms.subrange(lo, old_offs[k] as int).push(i));
                    } else {
                        lemma_below_step(ls, n as int, k);
                        lemma_rank_mono(ls, k, i as int, n as int);
                        if k < L {
                            lemma_below_mono(ls, n as int, k + 1, L);
                        } else {
                            lemma_below_mono(ls, n as int, L + 1, k);
                        }
                        lemma_below_mono(ls, n as int, k + 1, 16);
                        assert(lo <= old_offs[k] <= below(ls, n as int, k + 1));
                        assert(old_offs[k] == offs@[k]);
                        assert(pos < lo || pos >= old_offs[k]);
                        assert(symbols@.subrange(lo, offs@[k] as int) =~= old_syms.subrange(lo, old_offs[k] as int));
                    }
                }
            }
        }
        i += 1;
    }
    proof {
        assert forall|k: int| 1 <= k <= 15 implies #[trigger] symbols@.subrange(
                below(ls, n as int, k) as int,
                below(ls, n as int, k + 1) as int,
            ) == same_length_symbols(ls, k, n as int) by {
            lemma_below_step(ls, n as int, k);
            assert(offs@[k] == below(ls, n as int, k) + rank(ls, k, n as int));
        }
        lemma_canonical_layout(ls, symbols@, 15);
        assert(symbols@ =~= symbols@.subrange(0, total as int));
        lemma_sum_counts_below(ls, 16);
    }
    Some(HuffmanTable { counts, symbols })
}

/// The first code of length `l` in the canonical code with these counts.
pub open spec fn first_code(counts: Seq<usize>, l: int) -> int
    decreases l,
{
    if l <= 1 {
        0
    } else {
        2 * (first_code(counts, l - 1) + counts[l - 1] as int)
    }
}

/// The canonical code of symbol `j`: the codes of one length are consecutive
/// integers, given to the symbols of that length in ascending order.
pub open spec fn canonical_code(lens: Seq<u8>, j: int) -> int {
    first_code(length_counts(lens), lens[j] as int) + rank(lens, lens[j] as int, j)
}

/// The `l` bits at `p` spell `c`, most significant bit first.
pub open spec fn holds_code(s: Seq<u8>, p: int, c: int, l: int) -> bool {
    &&& p + l <= total_bits(s)
    &&& forall|k: int| 0 <= k < l ==> #[trigger] bit_at(s, p + k) as int == (c / pow2((l - 1 - k) as nat) as int) % 2
}

proof fn lemma_kraft_nonneg(counts: Seq<usize>, l: int)
    requires
        1 <= l <= 15,
        kraft_left(counts, 15) >= 0,
    ensures
        kraft_left(counts, l) >= 0,
{
    if kraft_left(counts, l) < 0 {
        lemma_kraft_negative(counts, l, 15);
    }
}

proof fn lemma_first_code_room(counts: Seq<usize>, l: int)
    requires
        1 <= l,
    ensures
        first_code(counts, l) + counts[l] as int + kraft_left(counts, l) == pow2(l as nat),
    decreases l,
{
    reveal_with_fuel(pow2, 2);
    if l > 1 {
        lemma_first_code_room(counts, l - 1);
        assert(pow2(l as nat) == 2 * pow2((l - 1) as nat));
        assert(first_code(counts, l) == 2 * (first_code(counts, l - 1) + counts[l - 1] as int));
        assert(kraft_left(counts, l) == 2 * kraft_left(counts, l - 1) - counts[l] as int);
    } else {
        assert(first_code(counts, l) == 0);
        assert(kraft_left(counts, 0) == 1);
    }
}

proof fn lemma_first_code_growth(counts: Seq<usize>, a: int, b: int)
    requires
        1 <= a < b,
    ensures
        first_code(counts, b) >= pow2((b - a) as nat) * (first_code(counts, a) + counts[a] as int),
    decreases b - a,
{
    let x = first_code(counts, a) + counts[a] as int;
    if b > a + 1 {
        lemma_first_code_growth(counts, a, b - 1);
        let m = pow2((b - 1 - a) as nat) as int;
        assert(pow2((b - a) as nat) == 2 * m);
        assert(first_code(counts, b) >= 2 * first_code(counts, b - 1));
        assert(first_code(counts, b - 1) >= m * x);
        assert(2 * (m * x) == (2 * m) * x) by (nonlinear_arith);
    } else {
        reveal_with_fuel(pow2, 2);
    }
}

proof fn lemma_pow2_pos(n: nat)
    ensures
        pow2(n) > 0,
    decreases n,
{
    if n > 0 {
        lemma_pow2_pos((n - 1) as nat);
    }
}

proof fn lemma_canonical_len(lens: Seq<u8>, l: int)
    requires
        0 <= l <= 15,
    ensures
        canonical_upto(lens, l).len() == below(lens, lens.len() as int, l + 1),
    decreases l,
{
    let n = lens.len() as int;
    if l == 0 {
        lemma_below_one(lens, n);
    } else {
        lemma_canonical_len(lens, l - 1);
        lemma_same_length_len(lens, l, n);
        lemma_below_step(lens, n, l);
    }
}

proof fn lemma_canonical_index(lens: Seq<u8>, l: int, bigl: int, k: int)
    requires
        1 <= l <= bigl <= 15,
        0 <= k < rank(lens, l, lens.len() as int),
    ensures
        canonical_upto(lens, bigl)[below(lens, lens.len() as int, l) + k]
            == same_length_symbols(lens, l, lens.len() as int)[k],
    decreases bigl,
{
    let n = lens.len() as int;
    lemma_canonical_len(lens, bigl - 1);
    lemma_below_step(lens, n, l);
    lemma_same_length_len(lens, l, n);
    if bigl > l {
        lemma_canonical_index(lens, l, bigl - 1, k);
        lemma_below_mono(lens, n, l + 1, bigl);
    }
}

proof fn lemma_same_length_at_rank(lens: Seq<u8>, l: int, i: int, j: int)
    requires
        0 <= j < i <= lens.len(),
        lens.len() <= usize::MAX,
        lens[j] as int == l,
    ensures
        rank(lens, l, j) < same_length_symbols(lens, l, i).len(),
        same_length_symbols(lens, l, i)[rank(lens, l, j) as int] == j,
    decreases i,
{
    lemma_same_length_len(lens, l, i);
    lemma_same_length_len(lens, l, j);
    if i > j + 1 {
        lemma_same_length_at_rank(lens, l, i - 1, j);
    }
}

proof fn lemma_walk_to_symbol(lens: Seq<u8>, s: Seq<u8>, p: int, j: int, len: int)
    requires
        lengths_valid(lens),
        kraft_ok(lens),
        lens.len() <= usize::MAX,
        0 <= j < lens.len(),
        1 <= len <= lens[j],
        holds_code(s, p, canonical_code(lens, j), lens[j] as int),
    ensures
        walk(
            s,
            p + len - 1,
            canonical_table(lens),
            len,
            canonical_code(lens, j) / pow2((lens[j] - len + 1) as nat) as int,
            first_code(length_counts(lens), len),
            sum_counts(length_counts(lens), len),
        ) == Ok::<(usize, int), InflateError>((j as usize, p + lens[j])),
    decreases lens[j] - len,
{
    let n = lens.len() as int;
    let l = lens[j] as int;
    let counts = length_counts(lens);
    let t = canonical_table(lens);
    let c = canonical_code(lens, j);
    let m = (l - len) as nat;
    lemma_rank_bound(lens, len, n);
    lemma_rank_bound(lens, l, j);
    lemma_pow2_pos(m);
    lemma_first_code_nonneg(counts, l);
    assert(c >= 0);
    // the code read so far is c with its last l - len bits dropped
    let x = c / pow2(m) as int;
    assert(c / pow2(m + 1) as int == x / 2) by {
        assert(pow2(m + 1) == pow2(m) * 2);
        vstd::arithmetic::div_mod::lemma_div_denominator(c, pow2(m) as int, 2);
    }
    assert(bit_at(s, p + (len - 1)) as int == x % 2);
    vstd::arithmetic::div_mod::lemma_fundamental_div_mod(x, 2);
    assert(2 * (c / pow2(m + 1) as int) + bit_at(s, p + len - 1) as int == x);
    assert(counts[len] as int == rank(lens, len, n));
    if len == l {
        assert(pow2(m) == 1);
        assert(c / 1 == c);
        assert(x == c);
        lemma_rank_mono(lens, l, j + 1, n);
        lemma_sum_counts_below(lens, l);
        lemma_canonical_index(lens, l, 15, rank(lens, l, j) as int);
        lemma_same_length_at_rank(lens, l, n, j);
    } else {
        lemma_first_code_growth(counts, len, l);
        let y = first_code(counts, len) + counts[len] as int;
        assert(c >= pow2(m) * y);
        assert(y >= 0) by {
            lemma_first_code_nonneg(counts, len);
        }
        vstd::arithmetic::div_mod::lemma_div_is_ordered(pow2(m) * y, c, pow2(m) as int);
        vstd::arithmetic::div_mod::lemma_div_multiples_vanish(y, pow2(m) as int);
        assert(x >= y);
        lemma_walk_to_symbol(lens, s, p, j, len + 1);
        assert((l - (len + 1) + 1) as nat == m);
    }
}

proof fn lemma_first_code_nonneg(counts: Seq<usize>, l: int)
    ensures
        first_code(counts, l) >= 0,
    decreases l,
{
    if l > 1 {
        lemma_first_code_nonneg(counts, l - 1);
    }
}

/// Every symbol with a nonzero code length decodes from its canonical code:
/// where the stream holds that code, decoding with the table built from the
/// lengths yields exactly that symbol and consumes exactly its code. As the
/// decoder is a function of the stream, no two symbols share a code.
pub proof fn lemma_canonical_codes_decode(lens: Seq<u8>, s: Seq<u8>, p: int, j: int)
    requires
        lengths_valid(lens),
        kraft_ok(lens),
        lens.len() <= usize::MAX,
        0 <= j < lens.len(),
        lens[j] != 0,
        holds_code(s, p, canonical_code(lens, j), lens[j] as int),
    ensures
        decode_symbol(s, p, canonical_table(lens)) == Ok::<(usize, int), InflateError>((j as usize, p + lens[j])),
{
    let l = lens[j] as int;
    let counts = length_counts(lens);
    let c = canonical_code(lens, j);
    lemma_kraft_nonneg(counts, l);
    lemma_first_code_room(counts, l);
    lemma_rank_mono(lens, l, j + 1, lens.len() as int);
    lemma_rank_bound(lens, l, lens.len() as int);
    lemma_pow2_pos(l as nat);
    lemma_first_code_nonneg(counts, l);
    assert(0 <= c < pow2(l as nat));
    vstd::arithmetic::div_mod::lemma_basic_div(c, pow2(l as nat) as int);
    lemma_walk_to_symbol(lens, s, p, j, 1);
}



/// The Kraft sum of the symbols below `i`: `2^(15 - l)` for each symbol
/// with a code length `l` from 1 to 15.
pub open spec fn kraft_sum(lens: Seq<u8>, i: int) -> nat
    decreases i,
{
    if i <= 0 {
        0
    } else {
        kraft_sum(lens, i - 1) + if 1 <= lens[i - 1] <= 15 {
            pow2((15 - lens[i - 1]) as nat)
        } else {
            0
        }
    }
}

/// Sum over lengths `m` from 1 to `l` of `counts[m] * 2^(l - m)`.
spec fn weighted(counts: Seq<usize>, l: int) -> int
    decreases l,
{
    if l <= 0 {
        0
    } else {
        2 * weighted(counts, l - 1) + counts[l] as int
    }
}

/// As `weighted`, over the symbols below `i`.
spec fn weighted_upto(lens: Seq<u8>, i: int, l: int) -> int
    decreases l,
{
    if l <= 0 {
        0
    } else {
        2 * weighted_upto(lens, i, l - 1) + rank(lens, l, i) as int
    }
}

proof fn lemma_kraft_left_weighted(counts: Seq<usize>, l: int)
    requires
        0 <= l,
    ensures
        kraft_left(counts, l) == pow2(l as nat) - weighted(counts, l),
    decreases l,
{
    if l > 0 {
        lemma_kraft_left_weighted(counts, l - 1);
    }
}

proof fn lemma_weighted_counts(lens: Seq<u8>, l: int)
    requires
        0 <= l <= 15,
        lens.len() <= usize::MAX,
    ensures
        weighted(length_counts(lens), l) == weighted_upto(lens, lens.len() as int, l),
    decreases l,
{
    if l > 0 {
        lemma_weighted_counts(lens, l - 1);
        lemma_rank_bound(lens, l, lens.len() as int);
    }
}

proof fn lemma_weighted_step(lens: Seq<u8>, i: int, l: int)
    requires
        0 <= i < lens.len(),
        0 <= l <= 15,
    ensures
        weighted_upto(lens, i + 1, l) == weighted_upto(lens, i, l) + if 1 <= lens[i] <= l {
            pow2((l - lens[i]) as nat) as int
        } else {
            0
        },
    decreases l,
{
    if l > 0 {
        lemma_weighted_step(lens, i, l - 1);
        if 1 <= lens[i] <= l - 1 {
            assert(pow2((l - lens[i]) as nat) == 2 * pow2((l - 1 - lens[i]) as nat));
        } else if lens[i] == l {
            assert(pow2(0) == 1);
        }
    }
}

proof fn lemma_weighted_sum(lens: Seq<u8>, i: int)
    requires
        0 <= i <= lens.len(),
    ensures
        weighted_upto(lens, i, 15) == kraft_sum(lens, i),
    decreases i,
{
    if i > 0 {
        lemma_weighted_sum(lens, i - 1);
        lemma_weighted_step(lens, i - 1, 15);
    } else {
        lemma_weighted_zero(lens, 15);
    }
}

proof fn lemma_weighted_zero(lens: Seq<u8>, l: int)
    requires
        0 <= l,
    ensures
        weighted_upto(lens, 0, l) == 0,
    decreases l,
{
    if l > 0 {
        lemma_weighted_zero(lens, l - 1);
    }
}

/// The running check that table construction makes is the Kraft
/// inequality: the lengths are accepted exactly when the sum of
/// `2^(15 - l)` over the symbols with a nonzero length `l` is at most `2^15`.
pub proof fn lemma_kraft_ok_is_kraft_inequality(lens: Seq<u8>)
    requires
        lengths_valid(lens),
        lens.len() <= usize::MAX,
    ensures
        kraft_ok(lens) <==> kraft_sum(lens, lens.len() as int) <= pow2(15),
{
    lemma_kraft_left_weighted(length_counts(lens), 15);
    lemma_weighted_counts(lens, 15);
    lemma_weighted_sum(lens, lens.len() as int);
}

} // verus!
