//! The packed artwork bitmap and the pixel-level operations on it.
//!
//! A bitmap of `width x height` pixels is stored row-major as a bitset of
//! `u64` words; pixel `(x, y)` is bit `y * width + x`. `true` means metal.
use vstd::prelude::*;
use vstd::slice::slice_subrange;


use crate::bits::{
    lemma_bit_value, lemma_shift_twice,
    bit_of, bits_in, bits_seq, count_on, count_ones, count_range, lemma_bit_all_ones,
    lemma_bit_and, lemma_bit_high_mask, lemma_bit_low_mask, lemma_bit_not, lemma_bit_or,
    lemma_bit_single, lemma_bits_in_bound, lemma_bits_seq_len, lemma_count_bound,
    lemma_count_same, lemma_count_split, lemma_count_word, lemma_mask_count, lemma_split_pos,
    lemma_test_bit, lemma_update_bit, lemma_update_word, lemma_word_bit_sub, word_bit, words_for,
};

verus! {

/// A binary bitmap where `true` = metal, `false` = gap, stored as a packed
/// bitset of `u64` words.
#[derive(Debug, Clone)]
pub struct ArtworkBitmap {
    pub width: u32,
    pub height: u32,
    /// The packed words; pixel `i` is bit `i % 64` of word `i / 64`.
    pub pixels: Vec<u64>,
}

/// Number of `u64` words needed for `bits` bits.
pub fn num_words(bits: usize) -> (r: usize)
    ensures
        r == words_for(bits as int),
{
    bits / 64 + if bits % 64 != 0 {
        1
    } else {
        0
    }
}

impl View for ArtworkBitmap {
    type V = Seq<bool>;

    /// The pixels in row-major order.
    open spec fn view(&self) -> Seq<bool> {
        bits_seq(self.words_view()).take(self.num_pixels())
    }
}

impl ArtworkBitmap {
    /// The packed words.
    pub open spec fn words_view(&self) -> Seq<u64> {
        self.pixels@
    }

    /// The contract-level dimensions are the fields.

    pub open spec fn num_pixels(&self) -> int {
        self.width * self.height
    }

    /// The bitmap holds exactly the words its pixels need, and its pixel
    /// indices fit in a `u32`.
    pub open spec fn wf(&self) -> bool {
        &&& self.num_pixels() <= u32::MAX
        &&& self.words_view().len() == words_for(self.num_pixels())
    }

    /// The bits of the words past the last pixel are all 0.
    pub open spec fn padding_clear(&self) -> bool {
        forall|j: int| self.num_pixels() <= j < 64 * self.words_view().len() ==> !#[trigger] word_bit(self.words_view(), j)
    }

    /// A well-formed bitmap with clear padding is determined by its size and
    /// pixels: two such bitmaps with the same pixels have the same words.
    pub proof fn lemma_words_determined(&self, other: ArtworkBitmap)
        requires
            self.wf(),
            other.wf(),
            self.width == other.width,
            self.height == other.height,
            self@ == other@,
            self.padding_clear(),
            other.padding_clear(),
        ensures
            self.pixels@ == other.pixels@,
    {
        self.lemma_view();
        other.lemma_view();
        let n = self.words_view().len() as int;
        assert forall|k: int| 0 <= k < n implies #[trigger] self.pixels@[k] == other.pixels@[k] by {
            assert forall|c: int| 0 <= c < 64 implies bit_of(self.pixels@[k], c) == bit_of(other.pixels@[k], c) by {
                let j = 64 * k + c;
                crate::bits::lemma_div_mod_64(k, c);
                assert(j < 64 * n) by (nonlinear_arith)
                    requires
                        k < n,
                        c < 64,
                        j == 64 * k + c,
                ;
                assert(word_bit(self.words_view(), j) == bit_of(self.pixels@[k], c));
                assert(word_bit(other.words_view(), j) == bit_of(other.pixels@[k], c));
                if j < self.num_pixels() {
                    assert(self@[j] == word_bit(self.words_view(), j));
                    assert(other@[j] == word_bit(other.words_view(), j));
                    assert(self@[j] == other@[j]);
                } else {
                    assert(!word_bit(self.words_view(), j));
                    assert(!word_bit(other.words_view(), j));
                }
            }
            crate::bits::lemma_word_ext(self.pixels@[k], other.pixels@[k]);
        }
        assert(self.pixels@ =~= other.pixels@);
    }

    /// Pixel `(x, y)`; `false` outside the bitmap.
    pub open spec fn pixel(&self, x: int, y: int) -> bool {
        0 <= x < self.width && 0 <= y < self.height && self@[y * self.width + x]
    }

    pub proof fn lemma_view(&self)
        requires
            self.wf(),
        ensures
            self@.len() == self.num_pixels(),
            forall|i: int| 0 <= i < self.num_pixels() ==> #[trigger] self@[i] == word_bit(self.words_view(), i),
            self.num_pixels() <= 64 * self.words_view().len(),
            self.words_view().len() * 64 <= self.num_pixels() + 63,
    {
        assert(self.num_pixels() >= 0) by (nonlinear_arith)
            requires
                self.width >= 0,
                self.height >= 0,
        ;
    }

    /// Index of pixel `(x, y)` in the row-major order.
    pub proof fn lemma_index(&self, x: int, y: int)
        requires
            0 <= x < self.width,
            0 <= y < self.height,
        ensures
            0 <= y * self.width + x < self.num_pixels(),
    {
        assert(0 <= y * self.width + x < self.width * self.height) by (nonlinear_arith)
            requires
                0 <= x < self.width,
                0 <= y < self.height,
        ;
    }

    /// Create a bitmap from a bool slice (row-major), packing into u64 words.
    pub fn from_bools(width: u32, height: u32, bools: &[bool]) -> (r: Self)
        requires
            width * height <= u32::MAX,
            bools@.len() == width * height,
        ensures
            r.wf(),
            r.width == width,
            r.height == height,
            r@ == bools@,
            r.padding_clear(),
    {
        let total = (width as usize) * (height as usize);
        let nw = num_words(total);
        let mut pixels: Vec<u64> = Vec::new();
        let mut k: usize = 0;
        while k < nw
            invariant
                k <= nw,
                pixels@.len() == k,
                forall|m: int| 0 <= m < k ==> pixels@[m] == 0u64,
            decreases nw - k,
        {
            pixels.push(0u64);
            k = k + 1;
        }
        proof {
            assert forall|j: int| 0 <= j < 64 * nw implies !word_bit(pixels@, j) by {
                lemma_split_pos(j);
                if j / 64 < nw {
                    lemma_bit_all_ones(j % 64);
                }
            }
        }
        let mut i: usize = 0;
        while i < total
            invariant
                total == width * height,
                bools@.len() == total,
                nw == words_for(total as int),
                i <= total,
                pixels@.len() == nw,
                forall|j: int|
                    0 <= j < 64 * nw ==> word_bit(pixels@, j) == (j < i && bools@[j]),
            decreases total - i,
        {
            if bools[i] {
                let wi = i / 64;
                let b = (i % 64) as u64;
                let old_word = pixels[wi];
                let new_word = old_word | (1u64 << b);
                proof {
                    assert forall|c: int| 0 <= c < 64 implies bit_of(new_word, c) == if c
                        == i % 64 {
                        true
                    } else {
                        bit_of(pixels@[i as int / 64], c)
                    } by {
                        lemma_bit_or(old_word, 1u64 << b, c);
                        lemma_bit_single(b, c);
                    }
                    lemma_update_bit(pixels@, i as int, new_word, true);
                }
                pixels.set(wi, new_word);
            }
            i = i + 1;
        }
        let r = ArtworkBitmap { width, height, pixels };
        proof {
            r.lemma_view();
            assert(r@ =~= bools@);
        }
        r
    }

    /// Create an all-false bitmap.
    pub fn new_zeroed(width: u32, height: u32) -> (r: Self)
        requires
            width * height <= u32::MAX,
        ensures
            r.wf(),
            r.width == width,
            r.height == height,
            forall|i: int| 0 <= i < r@.len() ==> !r@[i],
            r.words_view() == Seq::new(r.words_view().len(), |k: int| 0u64),
    {
        let total = (width as usize) * (height as usize);
        let nw = num_words(total);
        let mut pixels: Vec<u64> = Vec::new();
        let mut k: usize = 0;
        while k < nw
            invariant
                k <= nw,
                pixels@.len() == k,
                forall|m: int| 0 <= m < k ==> pixels@[m] == 0u64,
            decreases nw - k,
        {
            pixels.push(0u64);
            k = k + 1;
        }
        let r = ArtworkBitmap { width, height, pixels };
        proof {
            r.lemma_view();
            assert forall|i: int| 0 <= i < r@.len() implies !r@[i] by {
                lemma_split_pos(i);
                lemma_bit_all_ones(i % 64);
            }
            assert(r.words_view() =~= Seq::new(r.words_view().len(), |k: int| 0u64));
        }
        r
    }

    /// Access the raw packed words (read-only).
    pub fn words(&self) -> (r: &[u64])
        ensures
            r@ == self.words_view(),
    {
        self.pixels.as_slice()
    }

    /// Access the raw packed words (mutable).
    pub fn words_mut(&mut self) -> (r: &mut [u64])
        ensures
            r@ == old(self).words_view(),
            final(r)@ == final(self).words_view(),
            final(self).width == old(self).width,
            final(self).height == old(self).height,
    {
        self.pixels.as_mut_slice()
    }

    /// Returns the value of the pixel at `(x, y)`. Out-of-bounds coordinates
    /// return `false`.
    pub fn get(&self, x: u32, y: u32) -> (r: bool)
        requires
            self.wf(),
        ensures
            r == self.pixel(x as int, y as int),
    {
        if x >= self.width || y >= self.height {
            return false;
        }
        proof {
            self.lemma_index(x as int, y as int);
            self.lemma_view();
        }
        let i = (y * self.width + x) as usize;
        proof {
            lemma_split_pos(i as int);
            lemma_test_bit(self.pixels@[i as int / 64], (i % 64) as u64);
        }
        self.pixels[i / 64] & (1u64 << (i % 64) as u64) != 0
    }

    /// Sets the pixel at `(x, y)` to `val`. Out-of-bounds coordinates are
    /// ignored.
    pub fn set(&mut self, x: u32, y: u32, val: bool)
        requires
            old(self).wf(),
        ensures
            final(self).wf(),
            final(self).width == old(self).width,
            final(self).height == old(self).height,
            final(self)@ == if x < old(self).width && y < old(self).height {
                old(self)@.update(y * old(self).width + x, val)
            } else {
                old(self)@
            },
            !(x < old(self).width && y < old(self).height) ==> final(self).pixels@ == old(self).pixels@,
            forall|j: int| old(self).num_pixels() <= j ==> #[trigger] word_bit(final(self).words_view(), j)
                == word_bit(old(self).words_view(), j),
    {
        if x < self.width && y < self.height {
            proof {
                self.lemma_index(x as int, y as int);
                self.lemma_view();
            }
            let i = (y * self.width + x) as usize;
            let wi = i / 64;
            let b = (i % 64) as u64;
            let old_word = self.pixels[wi];
            let new_word = if val {
                old_word | (1u64 << b)
            } else {
                old_word & !(1u64 << b)
            };
            proof {
                lemma_split_pos(i as int);
                assert forall|c: int| 0 <= c < 64 implies bit_of(new_word, c) == if c == i
                    % 64 {
                    val
                } else {
                    bit_of(self.pixels@[i as int / 64], c)
                } by {
                    lemma_bit_or(old_word, 1u64 << b, c);
                    lemma_bit_and(old_word, !(1u64 << b), c);
                    lemma_bit_not(1u64 << b, c);
                    lemma_bit_single(b, c);
                }
                lemma_update_bit(self.pixels@, i as int, new_word, val);
            }
            let ghost old_self = *self;
            self.pixels.set(wi, new_word);
            proof {
                self.lemma_view();
                assert(self@ =~= old_self@.update(i as int, val));
            }
        }
    }

    /// Return the packed word slice and the bit offset of the first pixel of
    /// row `y`.
    pub fn row_words(&self, y: u32) -> (r: (&[u64], usize))
        requires
            self.wf(),
            y < self.height,
        ensures
            r.1 == (y * self.width) % 64,
            r.0@ == self.pixels@.subrange(
                (y * self.width) / 64,
                words_for(y * self.width + self.width),
            ),
            r.1 + self.width <= 64 * r.0@.len(),
            forall|x: int| 0 <= x < self.width ==> #[trigger] word_bit(r.0@, r.1 + x) == self.pixel(x, y as int),
    {
        proof {
            self.lemma_view();
            assert(y * self.width + self.width <= self.width * self.height) by (nonlinear_arith)
                requires
                    y < self.height,
            ;
            assert(0 <= y * self.width) by (nonlinear_arith)
                requires
                    y >= 0,
                    self.width >= 0,
            ;
        }
        let bit_start = (y as usize) * (self.width as usize);
        let bit_end = bit_start + self.width as usize;
        let word_start = bit_start / 64;
        let word_end = num_words(bit_end);
        let ghost ws = word_start as int;
        let ghost we = word_end as int;
        proof {
            lemma_split_pos(bit_start as int);
            assert(we <= self.pixels@.len());
            assert forall|x: int| 0 <= x < self.width implies #[trigger] word_bit(
                self.pixels@.subrange(ws, we),
                (bit_start % 64) + x,
            ) == self.pixel(x, y as int) by {
                lemma_word_bit_sub(self.pixels@, ws, we, (bit_start % 64) + x);
                self.lemma_index(x, y as int);
            }
        }
        (slice_subrange(self.pixels.as_slice(), word_start, word_end), bit_start % 64)
    }

    /// Count of "on" pixels.
    pub fn metal_count(&self) -> (r: usize)
        requires
            self.wf(),
        ensures
            r == count_on(self@),
    {
        proof {
            self.lemma_view();
        }
        let total = (self.width as usize) * (self.height as usize);
        let full_words = total / 64;
        let remainder = total % 64;
        let ghost bs = bits_seq(self.pixels@);
        proof {
            lemma_bits_seq_len(self.pixels@);
            lemma_split_pos(total as int);
        }
        let mut count: usize = 0;
        let mut k: usize = 0;
        while k < full_words
            invariant
                self.wf(),
                bs == bits_seq(self.pixels@),
                total == self.num_pixels(),
                full_words == total / 64,
                k <= full_words,
                full_words <= self.pixels@.len(),
                count == count_range(bs, 0, 64 * k),
                count <= 64 * k,
                64 * full_words <= total,
            decreases full_words - k,
        {
            let c = count_ones(self.pixels[k]);
            proof {
                lemma_count_word(self.pixels@, k as int, 0, 64);
                lemma_count_split(bs, 0, 64 * k, 64 * k + 64);
                lemma_bits_in_bound(self.pixels@[k as int], 0, 64);
            }
            count = count + c as usize;
            k = k + 1;
        }
        if remainder > 0 {
            proof {
                lemma_bit_low_mask(remainder as u64, 0);
            }
            let mask = (1u64 << remainder as u64) - 1;
            let word = self.pixels[full_words];
            proof {
                assert forall|b: int| 0 <= b < 64 implies bit_of(mask, b) == (0 <= b < remainder) by {
                    lemma_bit_low_mask(remainder as u64, b);
                }
                lemma_mask_count(word, mask, 0, remainder as int);
                lemma_count_word(self.pixels@, full_words as int, 0, remainder as int);
                lemma_count_split(bs, 0, 64 * full_words, total as int);
                lemma_bits_in_bound(word, 0, remainder as int);
            }
            let c = count_ones(word & mask);
            count = count + c as usize;
        }
        proof {
            lemma_count_same(self@, bs, 0, total as int);
        }
        count
    }

    /// Inverting twice gives back the words of a bitmap whose padding is
    /// clear: `b` and `c` are what `invert` leaves of `a` and of `b`.
    pub proof fn law_invert_twice(a: ArtworkBitmap, b: ArtworkBitmap, c: ArtworkBitmap)
        requires
            a.wf(),
            a.padding_clear(),
            b.wf(),
            b.width == a.width,
            b.height == a.height,
            b@ == Seq::new(a@.len(), |i: int| !a@[i]),
            c.wf(),
            c.width == b.width,
            c.height == b.height,
            c@ == Seq::new(b@.len(), |i: int| !b@[i]),
            c.padding_clear(),
        ensures
            c.pixels@ == a.pixels@,
    {
        assert(c@ =~= a@);
        c.lemma_words_determined(a);
    }

    /// Invert the bitmap (swap metal/gap).
    pub fn invert(&mut self)
        requires
            old(self).wf(),
        ensures
            final(self).wf(),
            final(self).width == old(self).width,
            final(self).height == old(self).height,
            final(self)@ == Seq::new(old(self)@.len(), |i: int| !old(self)@[i]),
            final(self).padding_clear(),
    {
        proof {
            self.lemma_view();
        }
        let n = self.pixels.len();
        let mut k: usize = 0;
        while k < n
            invariant
                self.width == old(self).width,
                self.height == old(self).height,
                n == self.pixels@.len(),
                n == old(self).pixels@.len(),
                k <= n,
                forall|m: int| 0 <= m < k ==> self.pixels@[m] == !old(self).pixels@[m],
                forall|m: int| k <= m < n ==> self.pixels@[m] == old(self).pixels@[m],
            decreases n - k,
        {
            let word = self.pixels[k];
            self.pixels.set(k, !word);
            k = k + 1;
        }
        let ghost flipped = self.pixels@;
        let total = (self.width as usize) * (self.height as usize);
        let remainder = total % 64;
        proof {
            lemma_split_pos(total as int);
        }
        if remainder > 0 {
            proof {
                lemma_bit_low_mask(remainder as u64, 0);
            }
            let mask = (1u64 << remainder as u64) - 1;
            let last = n - 1;
            let word = self.pixels[last];
            proof {
                lemma_bit_low_mask(remainder as u64, 0);
                lemma_update_word(self.pixels@, last as int, word & mask);
            }
            self.pixels.set(last, word & mask);
        }
        proof {
            self.lemma_view();
            assert forall|i: int| 0 <= i < total implies #[trigger] self@[i] == !old(self)@[i] by {
                lemma_split_pos(i);
                lemma_bit_not(old(self).pixels@[i / 64], i % 64);
                if remainder > 0 && i / 64 == n - 1 {
                    lemma_bit_and(flipped[i / 64], ((1u64 << remainder as u64) - 1) as u64, i % 64);
                    lemma_bit_low_mask(remainder as u64, i % 64);
                }
            }
            assert(self@ =~= Seq::new(old(self)@.len(), |i: int| !old(self)@[i]));
            assert forall|j: int| total <= j < 64 * n implies !#[trigger] word_bit(self.words_view(), j) by {
                lemma_split_pos(j);
                lemma_split_pos(total as int);
                assert(j / 64 == n - 1);
                lemma_bit_and(flipped[j / 64], ((1u64 << remainder as u64) - 1) as u64, j % 64);
                lemma_bit_low_mask(remainder as u64, j % 64);
            }
        }
    }
}

/// A mask whose bits `0..=last` are set.
fn mask_upto(last: usize) -> (m: u64)
    requires
        last < 64,
    ensures
        forall|b: int| 0 <= b < 64 ==> bit_of(m, b) == (b <= last),
{
    if last == 63 {
        proof {
            assert forall|b: int| 0 <= b < 64 implies bit_of(!0u64, b) == (b <= last) by {
                lemma_bit_all_ones(b);
            }
        }
        !0u64
    } else {
        proof {
            lemma_bit_low_mask((last + 1) as u64, 0);
            let m = ((1u64 << (last + 1) as u64) - 1) as u64;
            assert forall|b: int| 0 <= b < 64 implies bit_of(m, b) == (b <= last) by {
                lemma_bit_low_mask((last + 1) as u64, b);
            }
        }
        (1u64 << (last + 1) as u64) - 1
    }
}

/// A mask whose bits `first..64` are set.
fn mask_from(first: usize) -> (m: u64)
    requires
        first < 64,
    ensures
        forall|b: int| 0 <= b < 64 ==> bit_of(m, b) == (b >= first),
{
    proof {
        let m = !0u64 << first as u64;
        assert forall|b: int| 0 <= b < 64 implies bit_of(m, b) == (b >= first) by {
            lemma_bit_high_mask(first as u64, b);
        }
    }
    !0u64 << first as u64
}

/// A mask whose bits `first..=last` are set.
fn mask_between(first: usize, last: usize) -> (m: u64)
    requires
        first < 64,
        last < 64,
    ensures
        forall|b: int| 0 <= b < 64 ==> bit_of(m, b) == (first <= b <= last),
{
    let hi = mask_upto(last);
    let lo = mask_from(first);
    proof {
        assert forall|b: int| 0 <= b < 64 implies bit_of(hi & lo, b) == (first <= b <= last) by {
            lemma_bit_and(hi, lo, b);
        }
    }
    hi & lo
}

/// Count set bits in `[start, start+len)` using word-level popcount.
pub(crate) fn count_bits_in_range(words: &[u64], start: usize, len: usize) -> (r: usize)
    requires
        start + len <= 64 * words@.len(),
        start + len <= usize::MAX,
    ensures
        r == count_range(bits_seq(words@), start as int, start + len),
        r <= len,
{
    let ghost bs = bits_seq(words@);
    proof {
        lemma_count_bound(bs, start as int, start + len);
    }
    if len == 0 {
        return 0;
    }
    let end = start + len;
    let first_word = start / 64;
    let last_word = (end - 1) / 64;
    let first_bit = start % 64;
    let last_bit_incl = (end - 1) % 64;
    proof {
        lemma_split_pos(start as int);
        lemma_split_pos(end - 1);
    }
    if first_word == last_word {
        let mask = mask_between(first_bit, last_bit_incl);
        proof {
            lemma_mask_count(words@[first_word as int], mask, first_bit as int, last_bit_incl + 1);
            lemma_count_word(words@, first_word as int, first_bit as int, last_bit_incl + 1);
        }
        return count_ones(words[first_word] & mask) as usize;
    }
    let first_mask = mask_from(first_bit);
    proof {
        lemma_mask_count(words@[first_word as int], first_mask, first_bit as int, 64);
        lemma_count_word(words@, first_word as int, first_bit as int, 64);
        lemma_bits_in_bound(words@[first_word as int], first_bit as int, 64);
    }
    let mut count = count_ones(words[first_word] & first_mask) as usize;
    let mut k = first_word + 1;
    while k < last_word
        invariant
            bs == bits_seq(words@),
            first_word < k <= last_word,
            last_word < words@.len(),
            start == 64 * first_word + first_bit,
            count == count_range(bs, start as int, 64 * k),
            count <= 64 * k - start,
            end == start + len,
            start + len <= usize::MAX,
            64 * last_word <= end,
        decreases last_word - k,
    {
        proof {
            lemma_count_word(words@, k as int, 0, 64);
            lemma_count_split(bs, start as int, 64 * k, 64 * k + 64);
            lemma_bits_in_bound(words@[k as int], 0, 64);
        }
        count = count + count_ones(words[k]) as usize;
        k = k + 1;
    }
    let last_mask = mask_upto(last_bit_incl);
    proof {
        lemma_mask_count(words@[last_word as int], last_mask, 0, last_bit_incl + 1);
        lemma_count_word(words@, last_word as int, 0, last_bit_incl + 1);
        lemma_count_split(bs, start as int, 64 * last_word, end as int);
    }
    count = count + count_ones(words[last_word] & last_mask) as usize;
    count
}

/// Clear bits `[start, start+len)` in a bitset using word-level operations.
pub(crate) fn bulk_clear_bits(words: &mut [u64], start: usize, len: usize)
    requires
        start + len <= 64 * old(words)@.len(),
        start + len <= usize::MAX,
    ensures
        final(words)@.len() == old(words)@.len(),
        forall|j: int|
            #![trigger word_bit(final(words)@, j)]
            0 <= j ==> word_bit(final(words)@, j) == (word_bit(old(words)@, j) && !(start <= j
                < start + len)),
{
    if len == 0 {
        return;
    }
    let end = start + len;
    let first_word = start / 64;
    let last_word = (end - 1) / 64;
    let first_bit = start % 64;
    let last_bit_incl = (end - 1) % 64;
    proof {
        lemma_split_pos(start as int);
        lemma_split_pos(end - 1);
    }
    if first_word == last_word {
        let mask = mask_between(first_bit, last_bit_incl);
        let word = words[first_word];
        proof {
            lemma_update_word(words@, first_word as int, word & !mask);
            assert forall|j: int| 0 <= j implies #[trigger] word_bit(words@.update(first_word as int, word & !mask), j) == (word_bit(words@, j) && !(start <= j < start + len)) by {
                lemma_split_pos(j);
                if j / 64 == first_word {
                    lemma_bit_and(word, !mask, j % 64);
                    lemma_bit_not(mask, j % 64);
                }
            }
        }
        words[first_word] = word & !mask;
        return;
    }
    let ghost w0 = words@;
    let first_mask = mask_from(first_bit);
    let word = words[first_word];
    proof {
        lemma_update_word(words@, first_word as int, word & !first_mask);
    }
    words[first_word] = word & !first_mask;
    let mut k = first_word + 1;
    while k < last_word
        invariant
            first_word < k <= last_word,
            last_word < words@.len(),
            words@.len() == w0.len(),
            start == 64 * first_word + first_bit,
            end == start + len,
            end - 1 == 64 * last_word + last_bit_incl,
            forall|b: int| 0 <= b < 64 ==> bit_of(first_mask, b) == (b >= first_bit),
            words@[first_word as int] == w0[first_word as int] & !first_mask,
            forall|m: int| first_word < m < k ==> words@[m] == 0u64,
            forall|m: int| 0 <= m < words@.len() && (m < first_word || m >= k) && m != first_word ==> words@[m] == w0[m],
        decreases last_word - k,
    {
        words[k] = 0u64;
        k = k + 1;
    }
    let last_mask = mask_upto(last_bit_incl);
    let lw = words[last_word];
    proof {
        assert(lw == w0[last_word as int]);
    }
    words[last_word] = lw & !last_mask;
    proof {
        assert forall|j: int| 0 <= j implies #[trigger] word_bit(words@, j) == (word_bit(w0, j) && !(start <= j < start + len)) by {
            lemma_split_pos(j);
            if j / 64 < words@.len() {
                let q = j / 64;
                let b = j % 64;
                if q == first_word {
                    lemma_bit_and(w0[q], !first_mask, b);
                    lemma_bit_not(first_mask, b);
                } else if q == last_word {
                    lemma_bit_and(lw, !last_mask, b);
                    lemma_bit_not(last_mask, b);
                } else if first_word < q < last_word {
                    lemma_bit_all_ones(b);
                }
            }
        }
    }
}

/// `1` for `true`, `0` for `false`.
pub open spec fn b2n(b: bool) -> nat {
    if b {
        1
    } else {
        0
    }
}

/// Number of `true` entries of `s` in the window of columns `x0..x1` and
/// rows `y0..y1`, where row `y` starts at `y * width`.
pub open spec fn window_count(s: Seq<bool>, width: int, x0: int, y0: int, x1: int, y1: int) -> nat
    decreases y1 - y0,
{
    if y1 <= y0 {
        0
    } else {
        window_count(s, width, x0, y0, x1, y1 - 1) + count_range(s, (y1 - 1) * width + x0, (y1 - 1)
            * width + x1)
    }
}

/// Number of metal pixels among the eight neighbours of `(x, y)`.
pub open spec fn neighbor_count(bm: ArtworkBitmap, x: int, y: int) -> nat {
    b2n(bm.pixel(x - 1, y - 1)) + b2n(bm.pixel(x, y - 1)) + b2n(bm.pixel(x + 1, y - 1)) + b2n(
        bm.pixel(x - 1, y),
    ) + b2n(bm.pixel(x + 1, y)) + b2n(bm.pixel(x - 1, y + 1)) + b2n(bm.pixel(x, y + 1)) + b2n(
        bm.pixel(x + 1, y + 1),
    )
}

/// The summed-area table of the top-left `w x h` part of `bm`: entry
/// `y * (w + 1) + x` counts the metal pixels in columns `0..x`, rows `0..y`.
pub open spec fn is_sat(bm: ArtworkBitmap, w: int, h: int, sat: Seq<u32>) -> bool {
    &&& sat.len() == (w + 1) * (h + 1)
    &&& forall|x: int, y: int|
        #![trigger sat[y * (w + 1) + x]]
        0 <= x <= w && 0 <= y <= h ==> sat[y * (w + 1) + x] == window_count(
            bm@,
            bm.width as int,
            0,
            0,
            x,
            y,
        )
}

pub proof fn lemma_window_split_rows(s: Seq<bool>, width: int, x0: int, y0: int, ym: int, x1: int, y1: int)
    requires
        y0 <= ym <= y1,
    ensures
        window_count(s, width, x0, y0, x1, y1) == window_count(s, width, x0, y0, x1, ym)
            + window_count(s, width, x0, ym, x1, y1),
    decreases y1 - ym,
{
    if y1 > ym {
        lemma_window_split_rows(s, width, x0, y0, ym, x1, y1 - 1);
    }
}

pub proof fn lemma_window_split_cols(s: Seq<bool>, width: int, x0: int, xm: int, x1: int, y0: int, y1: int)
    requires
        x0 <= xm <= x1,
    ensures
        window_count(s, width, x0, y0, x1, y1) == window_count(s, width, x0, y0, xm, y1)
            + window_count(s, width, xm, y0, x1, y1),
    decreases y1 - y0,
{
    if y1 > y0 {
        lemma_window_split_cols(s, width, x0, xm, x1, y0, y1 - 1);
        lemma_count_split(s, (y1 - 1) * width + x0, (y1 - 1) * width + xm, (y1 - 1) * width + x1);
    }
}

/// A window with no columns is empty.
pub proof fn lemma_window_empty_cols(s: Seq<bool>, width: int, x0: int, y0: int, y1: int)
    ensures
        window_count(s, width, x0, y0, x0, y1) == 0,
    decreases y1 - y0,
{
    if y1 > y0 {
        lemma_window_empty_cols(s, width, x0, y0, y1 - 1);
    }
}

/// A window count is at most the window's area.
pub proof fn lemma_window_bound(s: Seq<bool>, width: int, x0: int, y0: int, x1: int, y1: int)
    requires
        x0 <= x1,
        y0 <= y1,
    ensures
        window_count(s, width, x0, y0, x1, y1) <= (x1 - x0) * (y1 - y0),
    decreases y1 - y0,
{
    if y1 > y0 {
        lemma_window_bound(s, width, x0, y0, x1, y1 - 1);
        lemma_count_bound(s, (y1 - 1) * width + x0, (y1 - 1) * width + x1);
        assert((x1 - x0) * (y1 - 1 - y0) + (x1 - x0) == (x1 - x0) * (y1 - y0)) by (nonlinear_arith);
    }
}

/// Direct count of on-pixels in a rectangular window of `win_w x win_h`
/// pixels at `(wx, wy)`; row `y` of the window is the bits
/// `y * width + wx .. y * width + wx + win_w`.
pub fn count_on_in_window(bitmap: &ArtworkBitmap, wx: u32, wy: u32, win_w: u32, win_h: u32) -> (r: u32)
    requires
        bitmap.wf(),
        wy + win_h <= u32::MAX,
        win_h == 0 || (0 < win_w <= bitmap.width && (wy + win_h - 1) * bitmap.width + wx + win_w
            <= bitmap.num_pixels()),
    ensures
        r == window_count(bitmap@, bitmap.width as int, wx as int, wy as int, wx + win_w, wy + win_h),
{
    let mut count: u32 = 0;
    let bw = bitmap.width as usize;
    let words = bitmap.words();
    proof {
        bitmap.lemma_view();
        lemma_bits_seq_len(bitmap.pixels@);
    }
    let mut y = wy;
    while y < wy + win_h
        invariant
            bitmap.wf(),
            words@ == bitmap.pixels@,
            bw == bitmap.width,
            wy <= y <= wy + win_h,
            wy + win_h <= u32::MAX,
            win_h > 0 ==> 0 < win_w <= bitmap.width,
            win_h > 0 ==> (wy + win_h - 1) * bitmap.width + wx + win_w <= bitmap.num_pixels(),
            count == window_count(bitmap@, bw as int, wx as int, wy as int, wx + win_w, y as int),
            count <= (y - wy) * bitmap.width,
        decreases wy + win_h - y,
    {
        proof {
            assert(y * bw + wx + win_w <= (wy + win_h - 1) * bw + wx + win_w) by (nonlinear_arith)
                requires
                    y <= wy + win_h - 1,
            ;
            assert(0 <= y * bw) by (nonlinear_arith)
                requires
                    y >= 0,
                    bw >= 0,
            ;
        }
        let row_bit_start = y as usize * bw + wx as usize;
        let c = count_bits_in_range(words, row_bit_start, win_w as usize);
        proof {
            lemma_count_same(bitmap@, bits_seq(words@), row_bit_start as int, row_bit_start + win_w);
            assert((y - wy) * bitmap.width + bitmap.width == (y + 1 - wy) * bitmap.width)
                by (nonlinear_arith);
            assert(wy + win_h - 1 < bitmap.height) by (nonlinear_arith)
                requires
                    (wy + win_h - 1) * bitmap.width + wx + win_w <= bitmap.width * bitmap.height,
                    0 < win_w <= bitmap.width,
            ;
            assert((y + 1 - wy) * bitmap.width <= bitmap.width * bitmap.height) by (nonlinear_arith)
                requires
                    y + 1 - wy <= bitmap.height,
            ;
        }
        count = count + c as u32;
        y = y + 1;
    }
    count
}

/// Pixel `(px, py)` of `bm`, read as 0 or 1 from its bit index `i`.
fn bit_at(words: &[u64], i: usize, Ghost(bm): Ghost<ArtworkBitmap>, Ghost(px): Ghost<int>, Ghost(py): Ghost<int>) -> (r: u8)
    requires
        bm.wf(),
        words@ == bm.pixels@,
        0 <= px < bm.width,
        0 <= py < bm.height,
        i == py * bm.width + px,
    ensures
        r == b2n(bm.pixel(px, py)),
        r <= 1,
{
    proof {
        bm.lemma_view();
        bm.lemma_index(px, py);
        lemma_split_pos(i as int);
        lemma_bit_value(words@[i as int / 64], (i % 64) as u64);
    }
    ((words[i / 64] >> (i % 64) as u64) & 1) as u8
}

/// Count 8-connected on-neighbors of pixel `(x, y)`.
#[verifier::spinoff_prover]
#[verifier::rlimit(40)]
pub(crate) fn count_neighbors(bitmap: &ArtworkBitmap, x: u32, y: u32) -> (r: u8)
    requires
        bitmap.wf(),
        x < bitmap.width,
        y < bitmap.height,
    ensures
        r == neighbor_count(*bitmap, x as int, y as int),
{
    let w = bitmap.width as usize;
    let h = bitmap.height;
    let words = bitmap.words();
    let mut count = 0u8;
    let ghost bm = *bitmap;
    let ghost xi = x as int;
    let ghost yi = y as int;

    let has_left = x > 0;
    let has_right = x + 1 < bitmap.width;
    let has_up = y > 0;
    let has_down = y + 1 < h;

    // Row above
    let mut up = 0u8;
    if has_up {
        proof {
            bm.lemma_index(xi, yi - 1);
        }
        let base = (y as usize - 1) * w + x as usize;
        if has_left {
            up = up + bit_at(words, base - 1, Ghost(bm), Ghost(xi - 1), Ghost(yi - 1));
        }
        up = up + bit_at(words, base, Ghost(bm), Ghost(xi), Ghost(yi - 1));
        if has_right {
            up = up + bit_at(words, base + 1, Ghost(bm), Ghost(xi + 1), Ghost(yi - 1));
        }
    }
    assert(up == b2n(bm.pixel(xi - 1, yi - 1)) + b2n(bm.pixel(xi, yi - 1)) + b2n(bm.pixel(xi + 1, yi - 1)));
    // Same row
    let mut mid = 0u8;
    {
        proof {
            bm.lemma_index(xi, yi);
        }
        let base = y as usize * w + x as usize;
        if has_left {
            mid = mid + bit_at(words, base - 1, Ghost(bm), Ghost(xi - 1), Ghost(yi));
        }
        if has_right {
            mid = mid + bit_at(words, base + 1, Ghost(bm), Ghost(xi + 1), Ghost(yi));
        }
    }
    assert(mid == b2n(bm.pixel(xi - 1, yi)) + b2n(bm.pixel(xi + 1, yi)));
    // Row below
    let mut down = 0u8;
    if has_down {
        proof {
            bm.lemma_index(xi, yi + 1);
        }
        let base = (y as usize + 1) * w + x as usize;
        if has_left {
            down = down + bit_at(words, base - 1, Ghost(bm), Ghost(xi - 1), Ghost(yi + 1));
        }
        down = down + bit_at(words, base, Ghost(bm), Ghost(xi), Ghost(yi + 1));
        if has_right {
            down = down + bit_at(words, base + 1, Ghost(bm), Ghost(xi + 1), Ghost(yi + 1));
        }
    }
    assert(down == b2n(bm.pixel(xi - 1, yi + 1)) + b2n(bm.pixel(xi, yi + 1)) + b2n(bm.pixel(xi + 1, yi + 1)));
    count = up + mid + down;
    count
}

/// Build a summed-area table over the top-left `w x h` part of the bitmap.
/// The table has dimensions `(w+1) x (h+1)`.
pub fn build_sat(bitmap: &ArtworkBitmap, w: u32, h: u32) -> (r: Vec<u32>)
    requires
        bitmap.wf(),
        w <= bitmap.width,
        h <= bitmap.height,
        w < u32::MAX,
        h < u32::MAX,
        (w + 1) * (h + 1) <= usize::MAX,
    ensures
        is_sat(*bitmap, w as int, h as int, r@),
{
    proof {
        assert(0 <= (w + 1) * (h + 1)) by (nonlinear_arith);
    }
    let stride = (w + 1) as usize;
    let n = stride * (h + 1) as usize;
    let mut sat: Vec<u32> = Vec::new();
    let mut k: usize = 0;
    while k < n
        invariant
            k <= n,
            sat@.len() == k,
            forall|m: int| 0 <= m < k ==> sat@[m] == 0u32,
        decreases n - k,
    {
        sat.push(0u32);
        k = k + 1;
    }
    proof {
        assert forall|x: int, y: int| 0 <= x <= w && 0 <= y <= 0 implies #[trigger] sat@[y * (w + 1) + x] == window_count(bitmap@, bitmap.width as int, 0, 0, x, y) by {
            assert(y == 0);
            assert(y * (w + 1) + x == x) by (nonlinear_arith) requires y == 0;
            assert(x < (w + 1) * (h + 1)) by (nonlinear_arith) requires x <= w, h >= 0;
        }
        assert forall|y: int| 0 <= y <= h implies #[trigger] sat@[y * (w + 1)] == 0u32 by {
            assert(0 <= y * (w + 1) < (w + 1) * (h + 1)) by (nonlinear_arith) requires 0 <= y <= h, w >= 0;
        }
    }
    build_sat_from(bitmap, w, h, sat.as_mut_slice(), 0);
    sat
}

/// Build SAT rows starting from `start_y`, reusing the provided buffer.
/// Rows up to `start_y` must already be correct in `sat`, and column 0
/// must hold zeros.
pub(crate) fn build_sat_from(bitmap: &ArtworkBitmap, w: u32, h: u32, sat: &mut [u32], start_y: u32)
    requires
        bitmap.wf(),
        w <= bitmap.width,
        h <= bitmap.height,
        start_y <= h,
        w < u32::MAX,
        (w + 1) * (h + 1) <= usize::MAX,
        old(sat)@.len() == (w + 1) * (h + 1),
        forall|x: int, y: int|
            #![trigger old(sat)@[y * (w + 1) + x]]
            0 <= x <= w && 0 <= y <= start_y ==> old(sat)@[y * (w + 1) + x] == window_count(
                bitmap@,
                bitmap.width as int,
                0,
                0,
                x,
                y,
            ),
        forall|y: int| 0 <= y <= h ==> #[trigger] old(sat)@[y * (w + 1)] == 0u32,
    ensures
        is_sat(*bitmap, w as int, h as int, final(sat)@),
{
    let stride = (w + 1) as usize;
    let w_usize = w as usize;
    let ghost bw = bitmap.width as int;
    proof {
        bitmap.lemma_view();
    }
    let mut y = start_y;
    while y < h
        invariant
            bitmap.wf(),
            bw == bitmap.width,
            w <= bitmap.width,
            h <= bitmap.height,
            start_y <= y <= h,
            stride == w + 1,
            w_usize == w,
            w < u32::MAX,
            (w + 1) * (h + 1) <= usize::MAX,
            sat@.len() == (w + 1) * (h + 1),
            forall|x: int, yy: int|
                #![trigger sat@[yy * (w + 1) + x]]
                0 <= x <= w && 0 <= yy <= y ==> sat@[yy * (w + 1) + x] == window_count(
                    bitmap@,
                    bw,
                    0,
                    0,
                    x,
                    yy,
                ),
            forall|yy: int| 0 <= yy <= h ==> #[trigger] sat@[yy * (w + 1)] == 0u32,
        decreases h - y,
    {
        let (row_words, bit_offset) = bitmap.row_words(y);
        proof {
            assert((y + 1) * (w + 1) + w < (w + 1) * (h + 1)) by (nonlinear_arith)
                requires
                    y < h,
            ;
            assert(y * (w + 1) + (w + 1) == (y + 1) * (w + 1)) by (nonlinear_arith);
            assert(0 <= y * (w + 1)) by (nonlinear_arith)
                requires
                    y >= 0,
            ;
        }
        proof {
            assert((y + 1) * (w + 1) <= (w + 1) * (h + 1)) by (nonlinear_arith)
                requires
                    y < h,
            ;
        }
        let sat_row = (y + 1) as usize * stride;
        let sat_prev_row = y as usize * stride;
        let ghost row_start = y * bw;
        let mut row_sum = 0u32;
        let mut x = 0usize;
        let mut word_idx = 0usize;
        let mut bit_in_word = bit_offset;
        let ghost prev = sat@;
        proof {
            lemma_window_bound(bitmap@, bw, 0, 0, w as int, bitmap.height as int);
            assert(w * bitmap.height <= bitmap.width * bitmap.height) by (nonlinear_arith)
                requires
                    w <= bitmap.width,
            ;
            assert(sat@[(y + 1) * (w + 1) + 0] == window_count(bitmap@, bw, 0, 0, 0, y + 1)) by {
                assert(sat@[(y + 1) * (w + 1)] == 0u32);
                lemma_window_empty_cols(bitmap@, bw, 0, 0, y + 1);
            }
        }
        while x < w_usize
            invariant
                bitmap.wf(),
                bw == bitmap.width,
                w <= bitmap.width,
                y < h,
                h <= bitmap.height,
                stride == w + 1,
                w_usize == w,
                x <= w_usize,
                sat_row == (y + 1) * (w + 1),
                sat_prev_row == y * (w + 1),
                sat_row + w < (w + 1) * (h + 1),
                sat_prev_row + stride == sat_row,
                row_start == y * bw,
                bit_offset + bitmap.width <= 64 * row_words@.len(),
                forall|px: int| 0 <= px < bitmap.width ==> #[trigger] word_bit(row_words@, bit_offset + px) == bitmap.pixel(px, y as int),
                x < w_usize ==> bit_offset + x == 64 * word_idx + bit_in_word,
                x < w_usize ==> bit_in_word < 64,
                row_sum == count_range(bitmap@, row_start, row_start + x),
                row_sum <= x,
                sat@.len() == prev.len(),
                prev.len() == (w + 1) * (h + 1),
                forall|yy: int| 0 <= yy <= h ==> #[trigger] prev[yy * (w + 1)] == 0u32,
                forall|m: int| 0 <= m < prev.len() && !(sat_row < m <= sat_row + x) ==> sat@[m] == prev[m],
                forall|xx: int|
                    #![trigger sat@[(y + 1) * (w + 1) + xx]]
                    0 <= xx <= x ==> sat@[(y + 1) * (w + 1) + xx] == window_count(
                        bitmap@,
                        bw,
                        0,
                        0,
                        xx,
                        y + 1,
                    ),
                forall|xx: int, yy: int|
                    #![trigger prev[yy * (w + 1) + xx]]
                    0 <= xx <= w && 0 <= yy <= y ==> prev[yy * (w + 1) + xx] == window_count(
                        bitmap@,
                        bw,
                        0,
                        0,
                        xx,
                        yy,
                    ),
                window_count(bitmap@, bitmap.width as int, 0, 0, w as int, bitmap.height as int) <= u32::MAX,
            decreases w_usize - x,
        {
            let word = row_words[word_idx];
            let bits_left_in_word = 64 - bit_in_word;
            let pixels_left = w_usize - x;
            let count = if bits_left_in_word < pixels_left {
                bits_left_in_word
            } else {
                pixels_left
            };
            let shifted = word >> bit_in_word as u64;
            let mut b = 0usize;
            while b < count
                invariant
                    bitmap.wf(),
                    bw == bitmap.width,
                    w <= bitmap.width,
                    y < h,
                    h <= bitmap.height,
                    stride == w + 1,
                    x + count <= w,
                    bit_in_word + count <= 64,
                    bit_offset + bitmap.width <= 64 * row_words@.len(),
                    b <= count,
                    word == row_words@[word_idx as int],
                    shifted == word >> bit_in_word as u64,
                    bit_offset + x == 64 * word_idx + bit_in_word,
                    sat_row == (y + 1) * (w + 1),
                    sat_prev_row == y * (w + 1),
                    sat_row + w < (w + 1) * (h + 1),
                    sat_prev_row + stride == sat_row,
                    row_start == y * bw,
                    forall|px: int| 0 <= px < bitmap.width ==> #[trigger] word_bit(row_words@, bit_offset + px) == bitmap.pixel(px, y as int),
                    row_sum == count_range(bitmap@, row_start, row_start + x + b),
                    row_sum <= x + b,
                    sat@.len() == prev.len(),
                    prev.len() == (w + 1) * (h + 1),
                    forall|yy: int| 0 <= yy <= h ==> #[trigger] prev[yy * (w + 1)] == 0u32,
                    forall|m: int| 0 <= m < prev.len() && !(sat_row < m <= sat_row + x + b) ==> sat@[m] == prev[m],
                    forall|xx: int|
                        #![trigger sat@[(y + 1) * (w + 1) + xx]]
                        0 <= xx <= x + b ==> sat@[(y + 1) * (w + 1) + xx] == window_count(
                            bitmap@,
                            bw,
                            0,
                            0,
                            xx,
                            y + 1,
                        ),
                    forall|xx: int, yy: int|
                        #![trigger prev[yy * (w + 1) + xx]]
                        0 <= xx <= w && 0 <= yy <= y ==> prev[yy * (w + 1) + xx] == window_count(
                            bitmap@,
                            bw,
                            0,
                            0,
                            xx,
                            yy,
                        ),
                    window_count(bitmap@, bitmap.width as int, 0, 0, w as int, bitmap.height as int) <= u32::MAX,
                decreases count - b,
            {
                let ghost px = (x + b) as int;
                proof {
                    lemma_shift_twice(word, bit_in_word as u64, b as u64);
                    lemma_bit_value(word, (bit_in_word + b) as u64);
                    assert(word_bit(row_words@, bit_offset + px) == bitmap.pixel(px, y as int));
                    crate::bits::lemma_div_mod_64(word_idx as int, (bit_in_word + b) as int);
                    assert(bit_offset + px == 64 * word_idx + (bit_in_word + b));
                    assert(word_bit(row_words@, bit_offset + px) == bit_of(word, (bit_in_word + b) as int));
                    assert(((shifted >> b as u64) & 1u64) == if bit_of(word, (bit_in_word + b) as int) { 1u64 } else { 0u64 });
                    bitmap.lemma_index(px, y as int);
                    assert(bitmap.pixel(px, y as int) == bitmap@[row_start + px]);
                    assert(sat@[sat_prev_row + px + 1] == prev[y * (w + 1) + (px + 1)]);
                    // the bound on the running total
                    lemma_window_split_rows(bitmap@, bw, 0, 0, y + 1, px + 1, bitmap.height as int);
                    lemma_window_split_cols(bitmap@, bw, 0, px + 1, w as int, 0, bitmap.height as int);
                }
                row_sum = row_sum + ((shifted >> b as u64) & 1) as u32;
                let above = sat[sat_prev_row + x + b + 1];
                proof {
                    assert(window_count(bitmap@, bw, 0, 0, px + 1, y + 1) == window_count(bitmap@, bw, 0, 0, px + 1, y as int) + count_range(bitmap@, y * bw, y * bw + px + 1));
                }
                sat[sat_row + x + b + 1] = row_sum + above;
                b = b + 1;
            }
            x = x + count;
            word_idx = word_idx + 1;
            bit_in_word = 0;
        }
        proof {
            assert forall|xx: int, yy: int| 0 <= xx <= w && 0 <= yy <= y + 1 implies #[trigger] sat@[yy * (w + 1) + xx] == window_count(bitmap@, bw, 0, 0, xx, yy) by {
                if yy <= y {
                    assert(yy * (w + 1) + xx <= y * (w + 1) + w) by (nonlinear_arith)
                        requires
                            yy <= y,
                            xx <= w,
                    ;
                    assert(prev[yy * (w + 1) + xx] == window_count(bitmap@, bw, 0, 0, xx, yy));
                } else {
                    assert(yy == y + 1);
                }
            }
            assert forall|yy: int| 0 <= yy <= h implies #[trigger] sat@[yy * (w + 1)] == 0u32 by {
                assert(0 <= yy * (w + 1) < (w + 1) * (h + 1)) by (nonlinear_arith)
                    requires
                        0 <= yy <= h,
                        w >= 0,
                ;
                if yy <= y {
                    assert(yy * (w + 1) <= y * (w + 1)) by (nonlinear_arith)
                        requires
                            yy <= y,
                    ;
                } else if yy >= y + 2 {
                    assert(yy * (w + 1) >= (y + 2) * (w + 1)) by (nonlinear_arith)
                        requires
                            yy >= y + 2,
                    ;
                    assert((y + 2) * (w + 1) == (y + 1) * (w + 1) + w + 1) by (nonlinear_arith);
                } else {
                    assert(yy * (w + 1) == sat_row);
                }
                assert(sat@[yy * (w + 1)] == prev[yy * (w + 1)]);
                assert(prev[yy * (w + 1)] == 0u32);
            }
        }
        y = y + 1;
    }
}

/// Query the SAT for the count of on-pixels in `[x0, x1) x [y0, y1)`.
pub(crate) fn sat_query(sat: &[u32], w: u32, x0: u32, y0: u32, x1: u32, y1: u32, Ghost(bm): Ghost<ArtworkBitmap>, Ghost(h): Ghost<int>) -> (r: u32)
    requires
        is_sat(bm, w as int, h, sat@),
        w < u32::MAX,
        (w + 1) * (h + 1) <= usize::MAX,
        x0 <= x1 <= w,
        y0 <= y1 <= h,
    ensures
        r == window_count(bm@, bm.width as int, x0 as int, y0 as int, x1 as int, y1 as int),
{
    proof {
        assert(0 <= y0 * (w + 1) + x0 <= y1 * (w + 1) + x1 < (w + 1) * (h + 1)) by (nonlinear_arith)
            requires
                x0 <= x1 <= w,
                y0 <= y1 <= h,
        ;
        assert(y0 * (w + 1) + x1 <= y1 * (w + 1) + x1) by (nonlinear_arith)
            requires
                y0 <= y1,
        ;
        assert(y1 * (w + 1) + x0 <= y1 * (w + 1) + x1);
    }
    let stride = (w + 1) as usize;
    let a = sat[y1 as usize * stride + x1 as usize];
    let b = sat[y0 as usize * stride + x1 as usize];
    let c = sat[y1 as usize * stride + x0 as usize];
    let d = sat[y0 as usize * stride + x0 as usize];
    proof {
        let s = bm@;
        let bw = bm.width as int;
        lemma_window_split_rows(s, bw, 0, 0, y0 as int, x1 as int, y1 as int);
        lemma_window_split_rows(s, bw, 0, 0, y0 as int, x0 as int, y1 as int);
        lemma_window_split_cols(s, bw, 0, x0 as int, x1 as int, y0 as int, y1 as int);
    }
    a.wrapping_sub(b).wrapping_sub(c).wrapping_add(d)
}

/// How to interpret the image for thresholding.
#[derive(Debug, Clone, Copy, PartialEq, Eq, Structural)]
pub enum ThresholdMode {
    /// Simple luminance threshold: below = metal, above = gap.
    Luminance(u8),
    /// Otsu's automatic thresholding.
    Otsu,
    /// Alpha channel: transparent = gap, opaque = metal.
    Alpha(u8),
}

/// `c` with ASCII upper-case letters lowered.
pub open spec fn ascii_lower(c: char) -> char {
    if 'A' <= c && c <= 'Z' {
        ((c as u32) + 32) as char
    } else {
        c
    }
}

/// Equality of two texts up to ASCII case.
pub open spec fn eq_ignore_ascii_case(a: Seq<char>, b: Seq<char>) -> bool {
    &&& a.len() == b.len()
    &&& forall|i: int| 0 <= i < a.len() ==> ascii_lower(#[trigger] a[i]) == ascii_lower(b[i])
}

/// Whether `ext` names an SVG file: `svg` or `svgz` in any ASCII case.
pub open spec fn is_svg_ext(ext: Seq<char>) -> bool {
    eq_ignore_ascii_case(ext, seq!['s', 'v', 'g']) || eq_ignore_ascii_case(ext, seq!['s', 'v', 'g', 'z'])
}

fn ascii_lower_of(c: char) -> (r: char)
    ensures
        r == ascii_lower(c),
{
    if 'A' <= c && c <= 'Z' {
        let b: u8 = (c as u32 + 32) as u8;
        b as char
    } else {
        c
    }
}

pub(crate) fn chars_of(s: &str) -> (r: Vec<char>)
    ensures
        r@ == s@,
{
    let mut v: Vec<char> = Vec::new();
    for c in it: s.chars()
        invariant
            it.seq() == s@,
            v@ == s@.take(it.index() as int),
    {
        v.push(c);
    }
    assert(v@ =~= s@);
    v
}

pub(crate) fn matches_ignore_case(a: &Vec<char>, b: &Vec<char>) -> (r: bool)
    ensures
        r == eq_ignore_ascii_case(a@, b@),
{
    if a.len() != b.len() {
        return false;
    }
    let mut i: usize = 0;
    while i < a.len()
        invariant
            a@.len() == b@.len(),
            0 <= i <= a@.len(),
            forall|j: int| 0 <= j < i ==> ascii_lower(#[trigger] a@[j]) == ascii_lower(b@[j]),
        decreases a.len() - i,
    {
        if ascii_lower_of(a[i]) != ascii_lower_of(b[i]) {
            return false;
        }
        i = i + 1;
    }
    true
}

/// Whether a file extension is that of an SVG file (`svg` or `svgz`,
/// ignoring ASCII case); no extension is not.
pub fn is_svg_extension(ext: Option<&str>) -> (r: bool)
    ensures
        r == (ext is Some && is_svg_ext(ext->0@)),
{
    match ext {
        None => false,
        Some(e) => {
            let cs = chars_of(e);
            let svg = vec!['s', 'v', 'g'];
            let svgz = vec!['s', 'v', 'g', 'z'];
            assert(svg@ =~= seq!['s', 'v', 'g']);
            assert(svgz@ =~= seq!['s', 'v', 'g', 'z']);
            matches_ignore_case(&cs, &svg) || matches_ignore_case(&cs, &svgz)
        },
    }
}

/// The position of the last `c` in `s`, or -1.
pub open spec fn last_index_of(s: Seq<char>, c: char) -> int
    decreases s.len(),
{
    if s.len() == 0 {
        -1
    } else if s.last() == c {
        s.len() - 1
    } else {
        last_index_of(s.drop_last(), c)
    }
}

/// The text after the last `'/'` of a path.
pub open spec fn last_segment(s: Seq<char>) -> Seq<char> {
    s.subrange(last_index_of(s, '/') + 1, s.len() as int)
}

/// A path whose last component is a plain file name on every platform: no
/// `'\\'` or `':'`, not ending in `'/'`, and not ending in a `.` or `..`
/// component.
pub open spec fn plain_path(s: Seq<char>) -> bool {
    &&& !s.contains('\\')
    &&& !s.contains(':')
    &&& last_segment(s).len() > 0
    &&& last_segment(s) != seq!['.']
    &&& last_segment(s) != seq!['.', '.']
}

/// The extension of a file name: the text after its last `'.'`, if that
/// `'.'` is not its first character.
pub open spec fn extension_of(name: Seq<char>) -> Option<Seq<char>> {
    let i = last_index_of(name, '.');
    if i <= 0 {
        None
    } else {
        Some(name.subrange(i + 1, name.len() as int))
    }
}

/// `std::path::Path::extension` of `path`, as text. For a plain path (see
/// `plain_path`) the file name is the last segment and the extension follows
/// its last `'.'`, as the documentation of `Path::file_name` and
/// `Path::extension` describes; for other paths the components depend on
/// the platform's path syntax and the contract states only that an
/// extension is found in a path that holds a `'.'`.
#[verifier::external_body]
fn path_extension(path: &str) -> (r: Option<String>)
    ensures
        r is Some ==> path@.contains('.'),
        plain_path(path@) ==> match extension_of(last_segment(path@)) {
            Some(e) => r is Some && r->0@ == e,
            None => r is None,
        },
{
    std::path::Path::new(path).extension().and_then(|e| e.to_str()).map(String::from)
}

/// Whether a file path has an SVG extension (`.svg` or `.svgz`, any ASCII
/// case).
pub fn is_svg(path: &str) -> (r: bool)
    ensures
        r ==> path@.contains('.'),
        plain_path(path@) ==> (r == (extension_of(last_segment(path@)) matches Some(e) && is_svg_ext(e))),
{
    match path_extension(path) {
        None => false,
        Some(e) => is_svg_extension(Some(e.as_str())),
    }
}


/// Whether a pixel of value `v` is metal: below the threshold when
/// `metal_below`, else at or above it.
pub open spec fn threshold_pixel(v: u8, thresh: u8, metal_below: bool) -> bool {
    if metal_below {
        v < thresh
    } else {
        v >= thresh
    }
}

/// Threshold one channel of an interleaved image: pixel `i` reads
/// `values[i * stride + offset]`.
pub fn threshold_bitmap(
    width: u32,
    height: u32,
    values: &[u8],
    stride: usize,
    offset: usize,
    thresh: u8,
    metal_below: bool,
) -> (r: ArtworkBitmap)
    requires
        width * height <= u32::MAX,
        offset < stride,
        values@.len() == width * height * stride,
    ensures
        r.wf(),
        r.width == width,
        r.height == height,
        r@ == Seq::new(
            (width * height) as nat,
            |i: int| threshold_pixel(values@[i * stride + offset], thresh, metal_below),
        ),
{
    let total = (width as usize) * (height as usize);
    let mut bools: Vec<bool> = Vec::new();
    let mut i: usize = 0;
    let vlen = values.len();
    while i < total
        invariant
            vlen == values@.len(),
            i <= total,
            total == width * height,
            offset < stride,
            values@.len() == width * height * stride,
            bools@ == Seq::new(
                i as nat,
                |j: int| threshold_pixel(values@[j * stride + offset], thresh, metal_below),
            ),
        decreases total - i,
    {
        assert(0 <= i * stride <= i * stride + offset < total * stride) by (nonlinear_arith)
            requires
                0 <= i < total,
                0 <= offset < stride,
        ;
        let v = values[i * stride + offset];
        let p = if metal_below {
            v < thresh
        } else {
            v >= thresh
        };
        bools.push(p);
        i = i + 1;
        proof {
            assert(bools@ =~= Seq::new(
                i as nat,
                |j: int| threshold_pixel(values@[j * stride + offset], thresh, metal_below),
            ));
        }
    }
    ArtworkBitmap::from_bools(width, height, bools.as_slice())
}


/// The scale `p / q` by which a `w x h` bitmap is shrunk to fit in
/// `max_w x max_h`: the smaller of the two axis ratios, never above 1. An axis
/// of length 0 sets no bound.
pub open spec fn resize_ratio(w: int, h: int, max_w: int, max_h: int) -> (int, int) {
    let sx = if w > 0 { (max_w, w) } else { (1int, 1int) };
    let sy = if h > 0 { (max_h, h) } else { (1int, 1int) };
    let m = if sx.0 * sy.1 <= sy.0 * sx.1 { sx } else { sy };
    if m.0 <= m.1 { m } else { (1int, 1int) }
}

/// A length `d` scaled by `p / q` and rounded to the nearest integer, halves
/// away from zero.
pub open spec fn resize_dim(d: int, p: int, q: int) -> int {
    (2 * d * p + q) / (2 * q)
}

/// The source coordinate read for target coordinate `x`: `x / (p / q)`
/// rounded down, at most `d - 1`.
pub open spec fn resize_src(x: int, p: int, q: int, d: int) -> int {
    let s = (x * q) / p;
    if s < d - 1 { s } else { d - 1 }
}

proof fn lemma_resize_dim(d: int, p: int, q: int)
    requires
        0 <= d,
        0 <= p <= q,
        0 < q,
    ensures
        0 <= resize_dim(d, p, q) <= d,
        resize_dim(d, p, q) > 0 ==> p > 0 && d > 0,
{
    assert(0 <= resize_dim(d, p, q) <= d) by (nonlinear_arith)
        requires
            0 <= d,
            0 <= p <= q,
            0 < q,
    ;
    if p == 0 || d == 0 {
        assert(2 * d * p == 0) by (nonlinear_arith)
            requires
                p == 0 || d == 0,
        ;
        assert(q / (2 * q) == 0) by (nonlinear_arith)
            requires
                0 < q,
        ;
    }
}

/// Shrink a bitmap by nearest-neighbour sampling so that it fits in
/// `max_w x max_h`, keeping its aspect ratio; a bitmap that already fits is
/// copied unchanged. The scale is the exact rational `resize_ratio`.
pub fn resize_bitmap(bmp: &ArtworkBitmap, max_w: u32, max_h: u32) -> (r: ArtworkBitmap)
    requires
        bmp.wf(),
    ensures
        r.wf(),
        ({
            let (p, q) = resize_ratio(bmp.width as int, bmp.height as int, max_w as int, max_h as int);
            &&& r.width == resize_dim(bmp.width as int, p, q)
            &&& r.height == resize_dim(bmp.height as int, p, q)
            &&& r@ == Seq::new(
                (r.width * r.height) as nat,
                |i: int|
                    bmp.pixel(
                        resize_src(i % (r.width as int), p, q, bmp.width as int),
                        resize_src(i / (r.width as int), p, q, bmp.height as int),
                    ),
            )
        }),
{
    let w: u64 = bmp.width as u64;
    let h: u64 = bmp.height as u64;
    let sx: (u64, u64) = if w > 0 { (max_w as u64, w) } else { (1, 1) };
    let sy: (u64, u64) = if h > 0 { (max_h as u64, h) } else { (1, 1) };
    assert(sx.0 * sy.1 <= u32::MAX * u32::MAX && sy.0 * sx.1 <= u32::MAX * u32::MAX) by (nonlinear_arith)
        requires
            sx.0 <= u32::MAX,
            sx.1 <= u32::MAX,
            sy.0 <= u32::MAX,
            sy.1 <= u32::MAX,
    ;
    let m: (u64, u64) = if sx.0 * sy.1 <= sy.0 * sx.1 { sx } else { sy };
    let (p, q): (u64, u64) = if m.0 <= m.1 { m } else { (1, 1) };
    let ghost gp: int = p as int;
    let ghost gq: int = q as int;
    assert((gp, gq) == resize_ratio(bmp.width as int, bmp.height as int, max_w as int, max_h as int));
    proof {
        lemma_resize_dim(w as int, gp, gq);
        lemma_resize_dim(h as int, gp, gq);
        assert(2 * w * p + q <= 2 * u32::MAX * u32::MAX + u32::MAX) by (nonlinear_arith)
            requires
                w <= u32::MAX,
                p <= u32::MAX,
                q <= u32::MAX,
        ;
        assert(2 * h * p + q <= 2 * u32::MAX * u32::MAX + u32::MAX) by (nonlinear_arith)
            requires
                h <= u32::MAX,
                p <= u32::MAX,
                q <= u32::MAX,
        ;
    }
    let nw: u32 = ((2 * (w as u128) * (p as u128) + q as u128) / (2 * q as u128)) as u32;
    let nh: u32 = ((2 * (h as u128) * (p as u128) + q as u128) / (2 * q as u128)) as u32;
    proof {
        assert(nw * nh <= bmp.width * bmp.height) by (nonlinear_arith)
            requires
                0 <= nw <= bmp.width,
                0 <= nh <= bmp.height,
        ;
    }
    let total: usize = (nw as usize) * (nh as usize);
    let mut bools: Vec<bool> = Vec::new();
    let mut i: usize = 0;
    while i < total
        invariant
            bmp.wf(),
            i <= total,
            total == nw * nh,
            nw <= bmp.width,
            nh <= bmp.height,
            nw > 0 ==> gp > 0,
            nh > 0 ==> gp > 0,
            p == gp,
            q == gq,
            0 < gq <= u32::MAX,
            bools@ == Seq::new(
                i as nat,
                |j: int|
                    bmp.pixel(
                        resize_src(j % (nw as int), gp, gq, bmp.width as int),
                        resize_src(j / (nw as int), gp, gq, bmp.height as int),
                    ),
            ),
        decreases total - i,
    {
        assert(0 < nw && 0 < nh) by (nonlinear_arith)
            requires
                i < total,
                total == nw * nh,
        ;
        let xx: usize = i % (nw as usize);
        let yy: usize = i / (nw as usize);
        assert(yy < nh) by (nonlinear_arith)
            requires
                i < nw * nh,
                yy == (i as int) / (nw as int),
                0 < nw,
        ;
        let x: u32 = xx as u32;
        let y: u32 = yy as u32;
        assert(x * q < u32::MAX * u32::MAX + 1 && y * q < u32::MAX * u32::MAX + 1) by (nonlinear_arith)
            requires
                x < u32::MAX,
                y < u32::MAX,
                q <= u32::MAX,
        ;
        let sx0: u64 = (x as u64) * q / p;
        let sy0: u64 = (y as u64) * q / p;
        let srcx: u32 = if sx0 < (bmp.width - 1) as u64 { sx0 as u32 } else { bmp.width - 1 };
        let srcy: u32 = if sy0 < (bmp.height - 1) as u64 { sy0 as u32 } else { bmp.height - 1 };
        let v = bmp.get(srcx, srcy);
        assert(srcx == resize_src(i as int % (nw as int), gp, gq, bmp.width as int));
        assert(srcy == resize_src(i as int / (nw as int), gp, gq, bmp.height as int));
        bools.push(v);
        i = i + 1;
        proof {
            assert(bools@ =~= Seq::new(
                i as nat,
                |j: int|
                    bmp.pixel(
                        resize_src(j % (nw as int), gp, gq, bmp.width as int),
                        resize_src(j / (nw as int), gp, gq, bmp.height as int),
                    ),
            ));
        }
    }
    ArtworkBitmap::from_bools(nw, nh, bools.as_slice())
}


/// Setting one pixel changes that pixel and no other.
pub proof fn lemma_set_pixel(a: ArtworkBitmap, b: ArtworkBitmap, x: int, y: int, v: bool)
    requires
        a.wf(),
        b.width == a.width,
        b.height == a.height,
        0 <= x < a.width,
        0 <= y < a.height,
        b@ == a@.update(y * a.width + x, v),
    ensures
        forall|p: int, q: int| #[trigger] b.pixel(p, q) == if p == x && q == y { v } else { a.pixel(p, q) },
{
    a.lemma_view();
    a.lemma_index(x, y);
    let w = a.width as int;
    assert forall|p: int, q: int| #[trigger] b.pixel(p, q) == if p == x && q == y { v } else { a.pixel(p, q) } by {
        if 0 <= p < w && 0 <= q < a.height {
            a.lemma_index(p, q);
            if !(p == x && q == y) {
                assert(q * w + p != y * w + x) by (nonlinear_arith)
                    requires
                        0 <= p < w,
                        0 <= x < w,
                        !(p == x && q == y),
                ;
            }
        }
    }
}

/// The pixels that `clear_knockout_rect` clears: the rectangle at `(x, y)`
/// of `w x h` pixels grown by `padding` on every side, cut to the bitmap.
pub open spec fn in_knockout(x: int, y: int, w: int, h: int, padding: int, px: int, py: int) -> bool {
    &&& x - padding <= px < x + w + padding
    &&& y - padding <= py < y + h + padding
}

/// Clear the pixels of the rectangle at `(x, y)` of `w x h` pixels, grown
/// by `padding` on every side, so that an overlay placed there stands on an
/// empty background.
pub fn clear_knockout_rect(bitmap: &mut ArtworkBitmap, x: u32, y: u32, w: u32, h: u32, padding: u32)
    requires
        old(bitmap).wf(),
    ensures
        final(bitmap).wf(),
        final(bitmap).width == old(bitmap).width,
        final(bitmap).height == old(bitmap).height,
        forall|px: int, py: int|
            #[trigger] final(bitmap).pixel(px, py) == (old(bitmap).pixel(px, py) && !in_knockout(
                x as int,
                y as int,
                w as int,
                h as int,
                padding as int,
                px,
                py,
            )),
{
    let ghost orig = *bitmap;
    let x0 = x.saturating_sub(padding);
    let y0 = y.saturating_sub(padding);
    let xa = x.saturating_add(w).saturating_add(padding);
    let ya = y.saturating_add(h).saturating_add(padding);
    let x1 = if xa < bitmap.width { xa } else { bitmap.width };
    let y1 = if ya < bitmap.height { ya } else { bitmap.height };
    let mut yy = y0;
    while yy < y1
        invariant
            orig.wf(),
            bitmap.wf(),
            bitmap.width == orig.width,
            bitmap.height == orig.height,
            y1 <= orig.height,
            x1 <= orig.width,
            yy == y0 || y0 <= yy <= y1,
            forall|px: int, py: int|
                #[trigger] bitmap.pixel(px, py) == (orig.pixel(px, py) && !(x0 <= px < x1 && y0 <= py < yy)),
        decreases y1 - yy,
    {
        let mut xx = x0;
        while xx < x1
            invariant
                orig.wf(),
                bitmap.wf(),
                bitmap.width == orig.width,
                bitmap.height == orig.height,
                y0 <= yy < y1 <= orig.height,
                x1 <= orig.width,
                xx == x0 || x0 <= xx <= x1,
                forall|px: int, py: int|
                    #[trigger] bitmap.pixel(px, py) == (orig.pixel(px, py) && !((x0 <= px < x1 && y0 <= py < yy)
                        || (py == yy && x0 <= px < xx))),
            decreases x1 - xx,
        {
            let ghost before = *bitmap;
            bitmap.set(xx, yy, false);
            proof {
                lemma_set_pixel(before, *bitmap, xx as int, yy as int, false);
            }
            xx = xx + 1;
        }
        yy = yy + 1;
    }
    proof {
        assert forall|px: int, py: int| #[trigger] bitmap.pixel(px, py) == (orig.pixel(px, py) && !in_knockout(
            x as int,
            y as int,
            w as int,
            h as int,
            padding as int,
            px,
            py,
        )) by {
            if orig.pixel(px, py) {
                assert(0 <= px < orig.width && 0 <= py < orig.height);
            }
        }
    }
}

}
