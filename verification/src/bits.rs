//! Bit-level model of packed `u64` bitsets.
//!
//! A bitset is a sequence of `u64` words; bit `j` of the set is bit `j % 64`
//! of word `j / 64`. Everything the bitmap code proves about its words goes
//! through the spec functions and lemmas of this module.
use vstd::prelude::*;

verus! {

/// Whether bit `b` (0 = least significant) of `w` is set.
pub open spec fn bit_of(w: u64, b: int) -> bool {
    0 <= b < 64 && ((w >> (b as u64)) & 1u64) == 1u64
}

/// Number of set bits of `w` among the positions `lo..hi`.
pub open spec fn bits_in(w: u64, lo: int, hi: int) -> nat
    decreases hi - lo,
{
    if hi <= lo {
        0
    } else {
        bits_in(w, lo, hi - 1) + if bit_of(w, hi - 1) {
            1nat
        } else {
            0nat
        }
    }
}

/// Bit `j` of the bitset stored in `words`.
pub open spec fn word_bit(words: Seq<u64>, j: int) -> bool {
    0 <= j && j / 64 < words.len() && bit_of(words[j / 64], j % 64)
}

/// All bits of `words`, in order.
pub open spec fn bits_seq(words: Seq<u64>) -> Seq<bool> {
    Seq::new(64 * words.len(), |j: int| word_bit(words, j))
}

/// Number of `true` entries of `s` among the positions `a..b`.
pub open spec fn count_range(s: Seq<bool>, a: int, b: int) -> nat
    decreases b - a,
{
    if b <= a {
        0
    } else {
        count_range(s, a, b - 1) + if s[b - 1] {
            1nat
        } else {
            0nat
        }
    }
}

/// Number of `true` entries of `s`.
pub open spec fn count_on(s: Seq<bool>) -> nat {
    count_range(s, 0, s.len() as int)
}

/// Number of words needed for `bits` bits.
pub open spec fn words_for(bits: int) -> int {
    (bits + 63) / 64
}

/// `u64::count_ones`: the number of ones in the binary representation.
#[verifier::external_body]
pub(crate) fn count_ones(w: u64) -> (r: u32)
    ensures
        r == bits_in(w, 0, 64),
{
    w.count_ones()
}

// ---------------------------------------------------------------------------
// Single-word facts, each proved by the bit-vector solver.
pub proof fn lemma_bit_and(x: u64, y: u64, b: int)
    requires
        0 <= b < 64,
    ensures
        bit_of(x & y, b) == (bit_of(x, b) && bit_of(y, b)),
{
    let s = b as u64;
    assert((((x & y) >> s) & 1u64 == 1u64) == ((x >> s) & 1u64 == 1u64 && (y >> s) & 1u64 == 1u64))
        by (bit_vector)
        requires
            s < 64,
    ;
}

pub proof fn lemma_bit_or(x: u64, y: u64, b: int)
    requires
        0 <= b < 64,
    ensures
        bit_of(x | y, b) == (bit_of(x, b) || bit_of(y, b)),
{
    let s = b as u64;
    assert((((x | y) >> s) & 1u64 == 1u64) == ((x >> s) & 1u64 == 1u64 || (y >> s) & 1u64 == 1u64))
        by (bit_vector)
        requires
            s < 64,
    ;
}

pub proof fn lemma_bit_not(x: u64, b: int)
    requires
        0 <= b < 64,
    ensures
        bit_of(!x, b) == !bit_of(x, b),
{
    let s = b as u64;
    assert((((!x) >> s) & 1u64 == 1u64) == !((x >> s) & 1u64 == 1u64)) by (bit_vector)
        requires
            s < 64,
    ;
}

pub proof fn lemma_bit_single(k: u64, b: int)
    requires
        k < 64,
        0 <= b < 64,
    ensures
        bit_of(1u64 << k, b) == (b == k),
{
    let s = b as u64;
    assert((((1u64 << k) >> s) & 1u64 == 1u64) == (s == k)) by (bit_vector)
        requires
            s < 64,
            k < 64,
    ;
}

/// Testing one bit with a single-bit mask.
pub proof fn lemma_test_bit(w: u64, k: u64)
    requires
        k < 64,
    ensures
        ((w & (1u64 << k)) != 0) == bit_of(w, k as int),
{
    assert(((w & (1u64 << k)) != 0) == ((w >> k) & 1u64 == 1u64)) by (bit_vector)
        requires
            k < 64,
    ;
}

/// The value of one bit, extracted by shifting.
pub proof fn lemma_bit_value(w: u64, k: u64)
    requires
        k < 64,
    ensures
        (w >> k) & 1u64 == if bit_of(w, k as int) {
            1u64
        } else {
            0u64
        },
{
    assert((w >> k) & 1u64 == 1u64 || (w >> k) & 1u64 == 0u64) by (bit_vector);
}

/// Shifting twice is shifting by the sum.
pub proof fn lemma_shift_twice(w: u64, a: u64, b: u64)
    requires
        a + b < 64,
    ensures
        ((w >> a) >> b) & 1u64 == (w >> ((a + b) as u64)) & 1u64,
{
    assert(((w >> a) >> b) & 1u64 == (w >> ((a + b) as u64)) & 1u64) by (bit_vector)
        requires
            a + b < 64,
    ;
}

/// Rewriting one word of a bitset.
pub proof fn lemma_update_word(words: Seq<u64>, k: int, v: u64)
    requires
        0 <= k < words.len(),
    ensures
        forall|j: int|
            #![trigger word_bit(words.update(k, v), j)]
            0 <= j ==> word_bit(words.update(k, v), j) == if j / 64 == k {
                bit_of(v, j % 64)
            } else {
                word_bit(words, j)
            },
{
}

/// Setting or clearing bit `i` of a bitset through its word.
pub proof fn lemma_update_bit(words: Seq<u64>, i: int, v: u64, val: bool)
    requires
        0 <= i,
        i / 64 < words.len(),
        forall|b: int|
            0 <= b < 64 ==> bit_of(v, b) == if b == i % 64 {
                val
            } else {
                bit_of(words[i / 64], b)
            },
    ensures
        forall|j: int|
            #![trigger word_bit(words.update(i / 64, v), j)]
            0 <= j ==> word_bit(words.update(i / 64, v), j) == if j == i {
                val
            } else {
                word_bit(words, j)
            },
{
    lemma_update_word(words, i / 64, v);
    assert forall|j: int| 0 <= j implies word_bit(words.update(i / 64, v), j) == if j == i {
        val
    } else {
        word_bit(words, j)
    } by {
        lemma_split_pos(j);
        lemma_split_pos(i);
    }
}

pub proof fn lemma_bit_low_mask(k: u64, b: int)
    requires
        k < 64,
        0 <= b < 64,
    ensures
        bit_of(((1u64 << k) - 1) as u64, b) == (b < k),
        (1u64 << k) >= 1,
{
    let s = b as u64;
    assert(((((1u64 << k) - 1) as u64 >> s) & 1u64 == 1u64) == (s < k) && (1u64 << k) >= 1)
        by (bit_vector)
        requires
            s < 64,
            k < 64,
    ;
}

pub proof fn lemma_bit_high_mask(k: u64, b: int)
    requires
        k < 64,
        0 <= b < 64,
    ensures
        bit_of(!0u64 << k, b) == (b >= k),
{
    let s = b as u64;
    assert((((!0u64 << k) >> s) & 1u64 == 1u64) == (s >= k)) by (bit_vector)
        requires
            s < 64,
            k < 64,
    ;
}

pub proof fn lemma_bit_all_ones(b: int)
    requires
        0 <= b < 64,
    ensures
        bit_of(!0u64, b),
        !bit_of(0u64, b),
{
    let s = b as u64;
    assert(((!0u64 >> s) & 1u64 == 1u64) && !((0u64 >> s) & 1u64 == 1u64)) by (bit_vector)
        requires
            s < 64,
    ;
}

// ---------------------------------------------------------------------------
// Counting.
/// Counting over a word whose bits are those of `w` restricted to `lo..hi`.
pub proof fn lemma_bits_in_masked(v: u64, w: u64, lo: int, hi: int, n: int)
    requires
        0 <= lo <= hi <= 64,
        0 <= n <= 64,
        forall|b: int| 0 <= b < 64 ==> #[trigger] bit_of(v, b) == (lo <= b < hi && bit_of(w, b)),
    ensures
        bits_in(v, 0, n) == bits_in(w, lo, if n < hi { n } else { hi }),
    decreases n,
{
    if n > 0 {
        lemma_bits_in_masked(v, w, lo, hi, n - 1);
        if n - 1 < lo {
            lemma_bits_in_empty(w, lo, if n < hi { n } else { hi });
            lemma_bits_in_empty(w, lo, if n - 1 < hi { n - 1 } else { hi });
        }
    }
}

pub proof fn lemma_bits_in_empty(w: u64, lo: int, hi: int)
    requires
        hi <= lo,
    ensures
        bits_in(w, lo, hi) == 0,
{
}

pub proof fn lemma_bits_in_bound(w: u64, lo: int, hi: int)
    ensures
        bits_in(w, lo, hi) <= if hi <= lo { 0 } else { hi - lo },
    decreases hi - lo,
{
    if hi > lo {
        lemma_bits_in_bound(w, lo, hi - 1);
    }
}

/// `count_range` splits at any middle point.
pub proof fn lemma_count_split(s: Seq<bool>, a: int, b: int, c: int)
    requires
        a <= b <= c,
    ensures
        count_range(s, a, c) == count_range(s, a, b) + count_range(s, b, c),
    decreases c - b,
{
    if c > b {
        lemma_count_split(s, a, b, c - 1);
    }
}

pub proof fn lemma_count_bound(s: Seq<bool>, a: int, b: int)
    ensures
        count_range(s, a, b) <= if b <= a { 0 } else { b - a },
    decreases b - a,
{
    if b > a {
        lemma_count_bound(s, a, b - 1);
    }
}

/// `count_range` only depends on the entries in range.
pub proof fn lemma_count_same(s: Seq<bool>, t: Seq<bool>, a: int, b: int)
    requires
        forall|j: int| a <= j < b ==> s[j] == t[j],
    ensures
        count_range(s, a, b) == count_range(t, a, b),
    decreases b - a,
{
    if b > a {
        lemma_count_same(s, t, a, b - 1);
    }
}

/// Counting with all entries in range equal to `false` gives zero.
pub proof fn lemma_count_none(s: Seq<bool>, a: int, b: int)
    requires
        forall|j: int| a <= j < b ==> !s[j],
    ensures
        count_range(s, a, b) == 0,
    decreases b - a,
{
    if b > a {
        lemma_count_none(s, a, b - 1);
    }
}

/// Counting with all entries in range equal to `true` gives the length.
pub proof fn lemma_count_all(s: Seq<bool>, a: int, b: int)
    requires
        a <= b,
        forall|j: int| a <= j < b ==> s[j],
    ensures
        count_range(s, a, b) == b - a,
    decreases b - a,
{
    if b > a {
        lemma_count_all(s, a, b - 1);
    }
}

pub proof fn lemma_div_mod_64(k: int, j: int)
    requires
        0 <= j < 64,
    ensures
        (64 * k + j) / 64 == k,
        (64 * k + j) % 64 == j,
{
    assert((64 * k + j) / 64 == k && (64 * k + j) % 64 == j) by (nonlinear_arith)
        requires
            0 <= j < 64,
    ;
}

/// The bits of word `k` seen through `bits_seq`.
pub proof fn lemma_bits_seq_word(words: Seq<u64>, k: int, j: int)
    requires
        0 <= k < words.len(),
        0 <= j < 64,
    ensures
        bits_seq(words)[64 * k + j] == bit_of(words[k], j),
        0 <= 64 * k + j < bits_seq(words).len(),
{
    lemma_div_mod_64(k, j);
    assert(64 * k + j < 64 * words.len()) by (nonlinear_arith)
        requires
            k < words.len(),
            j < 64,
    ;
}

proof fn lemma_shift_step(x: u64, k: u64)
    by (bit_vector)
    requires
        k < 63,
    ensures
        x >> k == ((x >> ((k + 1) as u64)) << 1u64) | ((x >> k) & 1u64),
        (x >> k) & 1u64 <= 1u64,
{
}

proof fn lemma_shift_ends(x: u64)
    by (bit_vector)
    ensures
        x >> 63u64 == (x >> 63u64) & 1u64,
        (x >> 63u64) & 1u64 <= 1u64,
        x >> 0u64 == x,
{
}

/// Words that agree on bits `0..64` agree on their shifts by `k`.
proof fn lemma_word_ext_from(x: u64, y: u64, k: int)
    requires
        0 <= k <= 63,
        forall|b: int| 0 <= b < 64 ==> bit_of(x, b) == bit_of(y, b),
    ensures
        x >> (k as u64) == y >> (k as u64),
    decreases 63 - k,
{
    if k == 63 {
        lemma_shift_ends(x);
        lemma_shift_ends(y);
        assert(bit_of(x, 63) == bit_of(y, 63));
    } else {
        lemma_word_ext_from(x, y, k + 1);
        lemma_shift_step(x, k as u64);
        lemma_shift_step(y, k as u64);
        assert(bit_of(x, k) == bit_of(y, k));
    }
}

/// Words with the same 64 bits are equal.
pub proof fn lemma_word_ext(x: u64, y: u64)
    requires
        forall|b: int| 0 <= b < 64 ==> bit_of(x, b) == bit_of(y, b),
    ensures
        x == y,
{
    lemma_word_ext_from(x, y, 0);
    lemma_shift_ends(x);
    lemma_shift_ends(y);
}

/// Counting the bits of one word through `bits_seq`.
pub proof fn lemma_count_word(words: Seq<u64>, k: int, lo: int, hi: int)
    requires
        0 <= k < words.len(),
        0 <= lo <= hi <= 64,
    ensures
        count_range(bits_seq(words), 64 * k + lo, 64 * k + hi) == bits_in(words[k], lo, hi),
    decreases hi - lo,
{
    if hi > lo {
        lemma_count_word(words, k, lo, hi - 1);
        lemma_bits_seq_word(words, k, hi - 1);
    }
}

/// Counting a word under a mask that selects the positions `lo..hi`.
pub proof fn lemma_mask_count(w: u64, m: u64, lo: int, hi: int)
    requires
        0 <= lo <= hi <= 64,
        forall|b: int| 0 <= b < 64 ==> bit_of(m, b) == (lo <= b < hi),
    ensures
        bits_in(w & m, 0, 64) == bits_in(w, lo, hi),
{
    assert forall|b: int| 0 <= b < 64 implies #[trigger] bit_of(w & m, b) == (lo <= b < hi && bit_of(w, b)) by {
        lemma_bit_and(w, m, b);
    }
    lemma_bits_in_masked(w & m, w, lo, hi, 64);
}

/// Positions inside a suffix of the words.
pub proof fn lemma_word_bit_sub(words: Seq<u64>, ws: int, we: int, t: int)
    requires
        0 <= ws <= we <= words.len(),
        0 <= t,
    ensures
        word_bit(words.subrange(ws, we), t) == (t < 64 * (we - ws) && word_bit(words, 64 * ws + t)),
{
    assert((64 * ws + t) / 64 == ws + t / 64 && (64 * ws + t) % 64 == t % 64) by (nonlinear_arith)
        requires
            0 <= t,
    ;
    lemma_split_pos(t);
}

/// The pixels of a bitmap-sized prefix of a bitset.
pub proof fn lemma_bits_seq_len(words: Seq<u64>)
    ensures
        bits_seq(words).len() == 64 * words.len(),
        forall|j: int| 0 <= j < 64 * words.len() ==> #[trigger] bits_seq(words)[j] == word_bit(words, j),
{
}

/// Split a bit position into word index and bit offset.
pub proof fn lemma_split_pos(j: int)
    requires
        0 <= j,
    ensures
        j == 64 * (j / 64) + j % 64,
        0 <= j % 64 < 64,
        0 <= j / 64,
{
}

} // verus!
