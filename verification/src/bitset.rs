//! A hierarchical occupancy bitmap over the price ladder's levels.
//!
//! # The problem it solves
//!
//! When a price level empties, the ladder must find the *next* non-empty level
//! to move its best-price cursor to. A plain linear scan is `O(width)` and, on
//! a sparse book, walks a lot of empty ticks.
//!
//! # The structure
//!
//! One bit per level (`words`), set when that level has resting orders, plus a
//! coarser *summary* layer with one bit per 64-bit word of `words`, set when
//! that word has any bits. To find the next occupied level we mask the current
//! word and take [`u64::trailing_zeros`]; if the word is empty we consult the
//! summary to jump straight to the next non-empty word. For a ladder up to
//! `64 * 64 = 4096` levels the summary is a single word, so a lookup is a small
//! constant number of instructions; wider ladders scan only summary words
//! (`width / 4096`), still far below a raw scan.

use vstd::prelude::*;
use vstd::std_specs::bits::{
    axiom_u64_leading_zeros, axiom_u64_trailing_zeros, u64_leading_zeros, u64_trailing_zeros,
};

verus! {

/// Bit `b` of a word.
pub open spec fn bit(word: u64, b: u64) -> bool {
    (word >> b) & 1u64 == 1u64
}

/// Bit `i` of a row of words.
pub open spec fn bit_at(words: Seq<u64>, i: int) -> bool {
    0 <= i < 64 * words.len() && bit(words[i / 64], (i % 64) as u64)
}

/// The number of 64-bit words for `n` bits.
pub open spec fn words_for(n: int) -> int {
    n / 64 + (if n % 64 == 0 {
        0int
    } else {
        1int
    })
}

/// A two-level "find next/previous set bit" bitmap.
pub struct LevelBitset {
    /// Number of representable levels.
    nbits: usize,
    /// Bit `i` set == level `i` is occupied.
    words: Vec<u64>,
    /// Bit `w` set == `words[w] != 0`.
    summary: Vec<u64>,
}

impl View for LevelBitset {
    type V = Set<int>;

    /// The occupied levels.
    closed spec fn view(&self) -> Set<int> {
        Set::new(|i: int| bit_at(self.words@, i))
    }
}

/// Setting a bit leaves the others.
proof fn lemma_set_bit(word: u64, b: u64)
    requires
        b < 64,
    ensures
        forall|c: u64| c < 64 ==> #[trigger] bit(word | (1u64 << b), c) == (c == b || bit(word, c)),
{
    assert forall|c: u64| c < 64 implies #[trigger] bit(word | (1u64 << b), c) == (c == b || bit(
        word,
        c,
    )) by {
        assert(((word | (1u64 << b)) >> c) & 1u64 == 1u64 <==> (c == b || (word >> c) & 1u64
            == 1u64)) by (bit_vector)
            requires
                b < 64,
                c < 64,
        ;
    }
}

/// Clearing a bit leaves the others.
proof fn lemma_clear_bit(word: u64, b: u64)
    requires
        b < 64,
    ensures
        forall|c: u64|
            c < 64 ==> #[trigger] bit(word & !(1u64 << b), c) == (c != b && bit(word, c)),
{
    assert forall|c: u64| c < 64 implies #[trigger] bit(word & !(1u64 << b), c) == (c != b && bit(
        word,
        c,
    )) by {
        assert(((word & !(1u64 << b)) >> c) & 1u64 == 1u64 <==> (c != b && (word >> c) & 1u64
            == 1u64)) by (bit_vector)
            requires
                b < 64,
                c < 64,
        ;
    }
}

/// No bit of zero is set, and some bit of any other word is.
proof fn lemma_zero(word: u64)
    ensures
        word == 0 <==> forall|c: u64| c < 64 ==> !#[trigger] bit(word, c),
{
    if word == 0 {
        assert forall|c: u64| c < 64 implies !#[trigger] bit(word, c) by {
            assert((0u64 >> c) & 1u64 == 0u64) by (bit_vector);
        }
    } else {
        axiom_u64_trailing_zeros(word);
        assert(bit(word, u64_trailing_zeros(word) as u64));
    }
}

/// The lowest set bit of a word.
proof fn lemma_lowest(word: u64)
    requires
        word != 0,
    ensures
        u64_trailing_zeros(word) < 64,
        bit(word, u64_trailing_zeros(word) as u64),
        forall|c: u64| c < u64_trailing_zeros(word) ==> !#[trigger] bit(word, c),
{
    axiom_u64_trailing_zeros(word);
}

/// The highest set bit of a word.
proof fn lemma_highest(word: u64)
    requires
        word != 0,
    ensures
        u64_leading_zeros(word) < 64,
        bit(word, (63 - u64_leading_zeros(word)) as u64),
        forall|c: u64| 63 - u64_leading_zeros(word) < c < 64 ==> !#[trigger] bit(word, c),
{
    axiom_u64_leading_zeros(word);
    let b = (63 - u64_leading_zeros(word)) as u64;
    assert((word >> b) & 1u64 != 0u64 ==> (word >> b) & 1u64 == 1u64) by (bit_vector);
}

/// Masking off the bits below `b`.
proof fn lemma_high_mask(word: u64, b: u64)
    requires
        b < 64,
    ensures
        forall|c: u64|
            c < 64 ==> #[trigger] bit(word & (u64::MAX << b), c) == (bit(word, c) && c >= b),
{
    assert forall|c: u64| c < 64 implies #[trigger] bit(word & (u64::MAX << b), c) == (bit(word, c)
        && c >= b) by {
        assert(((word & (0xFFFF_FFFF_FFFF_FFFFu64 << b)) >> c) & 1u64 == 1u64 <==> ((word >> c)
            & 1u64 == 1u64 && c >= b)) by (bit_vector)
            requires
                b < 64,
                c < 64,
        ;
    }
}

/// A mask of the low bits `0..=b` (bit `b` included).
#[inline]
fn lo_mask_inclusive(b: u64) -> (mask: u64)
    requires
        b < 64,
    ensures
        forall|word: u64, c: u64|
            c < 64 ==> #[trigger] bit(word & mask, c) == (bit(word, c) && c <= b),
{
    let mask: u64 = if b == 63 {
        u64::MAX
    } else {
        let above: u64 = b + 1;
        assert(1u64 << above >= 1u64) by (bit_vector)
            requires
                above < 64,
        ;
        (1u64 << above) - 1
    };
    assert forall|word: u64, c: u64| c < 64 implies #[trigger] bit(word & mask, c) == (bit(word, c)
        && c <= b) by {
        assert(((word & mask) >> c) & 1u64 == 1u64 <==> ((word >> c) & 1u64 == 1u64 && c <= b))
            by (bit_vector)
            requires
                b < 64,
                c < 64,
                b == 63 ==> mask == 0xFFFF_FFFF_FFFF_FFFFu64,
                b < 63 ==> mask == (1u64 << ((b + 1) as u64)) - 1,
        ;
    }
    mask
}

/// Setting one bit in a row of words.
proof fn lemma_row_set(row: Seq<u64>, i: int)
    requires
        0 <= i < 64 * row.len(),
    ensures
        forall|j: int| #[trigger]
            bit_at(row.update(i / 64, row[i / 64] | (1u64 << ((i % 64) as u64))), j) == (j == i
                || bit_at(row, j)),
{
    lemma_set_bit(row[i / 64], (i % 64) as u64);
    let after = row.update(i / 64, row[i / 64] | (1u64 << ((i % 64) as u64)));
    assert forall|j: int| #[trigger] bit_at(after, j) == (j == i || bit_at(row, j)) by {
        if 0 <= j < 64 * row.len() && j / 64 == i / 64 {
            assert(bit(after[i / 64], (j % 64) as u64) == (j % 64 == i % 64 || bit(
                row[i / 64],
                (j % 64) as u64,
            )));
        }
    }
}

/// Clearing one bit in a row of words.
proof fn lemma_row_clear(row: Seq<u64>, i: int)
    requires
        0 <= i < 64 * row.len(),
    ensures
        forall|j: int| #[trigger]
            bit_at(row.update(i / 64, row[i / 64] & !(1u64 << ((i % 64) as u64))), j) == (j != i
                && bit_at(row, j)),
{
    lemma_clear_bit(row[i / 64], (i % 64) as u64);
    let after = row.update(i / 64, row[i / 64] & !(1u64 << ((i % 64) as u64)));
    assert forall|j: int| #[trigger] bit_at(after, j) == (j != i && bit_at(row, j)) by {
        if 0 <= j < 64 * row.len() && j / 64 == i / 64 {
            assert(bit(after[i / 64], (j % 64) as u64) == (j % 64 != i % 64 && bit(
                row[i / 64],
                (j % 64) as u64,
            )));
        }
    }
}

/// The bits of an empty word.
proof fn lemma_empty_word(row: Seq<u64>, w: int)
    requires
        0 <= w < row.len(),
        row[w] == 0,
    ensures
        forall|j: int| 64 * w <= j < 64 * w + 64 ==> !#[trigger] bit_at(row, j),
{
    lemma_zero(0);
}

/// The first set bit of word `w` of a row.
proof fn lemma_first_in_word(row: Seq<u64>, w: int)
    requires
        0 <= w < row.len(),
        row[w] != 0,
    ensures
        u64_trailing_zeros(row[w]) < 64,
        bit_at(row, w * 64 + u64_trailing_zeros(row[w])),
        forall|j: int|
            w * 64 <= j < w * 64 + u64_trailing_zeros(row[w]) ==> !#[trigger] bit_at(row, j),
{
    lemma_lowest(row[w]);
    let t = u64_trailing_zeros(row[w]) as int;
    assert((w * 64 + t) / 64 == w && (w * 64 + t) % 64 == t);
    assert forall|j: int| w * 64 <= j < w * 64 + t implies !#[trigger] bit_at(row, j) by {
        assert(j / 64 == w && j % 64 == j - w * 64);
        assert(!bit(row[w], (j % 64) as u64));
    }
}

/// The last set bit of word `w` of a row.
proof fn lemma_last_in_word(row: Seq<u64>, w: int)
    requires
        0 <= w < row.len(),
        row[w] != 0,
    ensures
        u64_leading_zeros(row[w]) < 64,
        bit_at(row, w * 64 + 63 - u64_leading_zeros(row[w])),
        forall|j: int|
            w * 64 + 63 - u64_leading_zeros(row[w]) < j < w * 64 + 64 ==> !#[trigger] bit_at(
                row,
                j,
            ),
{
    lemma_highest(row[w]);
    let t = 63 - u64_leading_zeros(row[w]);
    assert((w * 64 + t) / 64 == w && (w * 64 + t) % 64 == t);
    assert forall|j: int| w * 64 + t < j < w * 64 + 64 implies !#[trigger] bit_at(row, j) by {
        assert(j / 64 == w && j % 64 == j - w * 64);
        assert(!bit(row[w], (j % 64) as u64));
    }
}

/// A row with the bits below `from` masked off in the word of `from`.
proof fn lemma_from_on(row: Seq<u64>, from: int)
    requires
        0 <= from < 64 * row.len(),
    ensures
        forall|j: int|
            64 * (from / 64) <= j < 64 * (from / 64) + 64 ==> #[trigger] bit_at(
                row.update(
                    from / 64,
                    row[from / 64] & (u64::MAX << ((from % 64) as u64)),
                ),
                j,
            ) == (from <= j && bit_at(row, j)),
{
    let w = from / 64;
    let b = (from % 64) as u64;
    let masked = row[w] & (u64::MAX << b);
    lemma_high_mask(row[w], b);
    assert forall|j: int| 64 * w <= j < 64 * w + 64 implies #[trigger] bit_at(
        row.update(w, masked),
        j,
    ) == (from <= j && bit_at(row, j)) by {
        assert(j / 64 == w);
        assert(bit(masked, (j % 64) as u64) == (bit(row[w], (j % 64) as u64) && j % 64 >= b));
    }
}

/// A row with the bits above `from` masked off in the word of `from`.
proof fn lemma_up_to(row: Seq<u64>, from: int, mask: u64)
    requires
        0 <= from < 64 * row.len(),
        forall|word: u64, c: u64|
            c < 64 ==> #[trigger] bit(word & mask, c) == (bit(word, c) && c <= from % 64),
    ensures
        forall|j: int|
            64 * (from / 64) <= j < 64 * (from / 64) + 64 ==> #[trigger] bit_at(
                row.update(from / 64, row[from / 64] & mask),
                j,
            ) == (j <= from && bit_at(row, j)),
{
    let w = from / 64;
    let masked = row[w] & mask;
    assert forall|j: int| 64 * w <= j < 64 * w + 64 implies #[trigger] bit_at(
        row.update(w, masked),
        j,
    ) == (j <= from && bit_at(row, j)) by {
        assert(j / 64 == w);
        assert(bit(masked, (j % 64) as u64) == (bit(row[w], (j % 64) as u64) && j % 64 <= from
            % 64));
    }
}

impl LevelBitset {
    /// The summary layer tells the empty words from the others.
    pub closed spec fn wf(self) -> bool {
        &&& self.words.len() == (if self.nbits == 0 { 1 } else { words_for(self.nbits as int) })
        &&& self.summary.len() == words_for(self.words.len() as int)
        &&& forall|w: int|
            0 <= w < 64 * self.summary.len() ==> (#[trigger] bit_at(self.summary@, w) <==> w
                < self.words.len() && self.words[w] != 0)
    }

    /// The number of levels the bitmap was made for.
    pub closed spec fn size(self) -> usize {
        self.nbits
    }

    /// The number of levels there is a bit for: the size rounded up to whole
    /// words, of which there is at least one.
    pub closed spec fn capacity(self) -> int {
        64 * self.words.len()
    }

    /// There is a bit for every level.
    pub proof fn lemma_capacity(self)
        requires
            self.wf(),
        ensures
            self.size() <= self.capacity(),
    {
    }

    /// A bitmap covering `nbits` levels, all initially empty.
    pub fn new(nbits: usize) -> (bits: Self)
        ensures
            bits.wf(),
            bits.size() == nbits,
            bits.capacity() == 64 * (if nbits == 0 { 1 } else { words_for(nbits as int) }),
            bits@ == Set::<int>::empty(),
    {
        let whole: usize = if nbits == 0 {
            1
        } else if nbits % 64 == 0 {
            nbits / 64
        } else {
            nbits / 64 + 1
        };
        let groups: usize = if whole % 64 == 0 {
            whole / 64
        } else {
            whole / 64 + 1
        };
        let words: Vec<u64> = vec![0u64; whole];
        let summary: Vec<u64> = vec![0u64; groups];
        let bits = Self { nbits, words, summary };
        proof {
            lemma_zero(0);
            assert(bits@ =~= Set::<int>::empty());
        }
        bits
    }

    /// Mark level `i` occupied. Idempotent.
    pub fn set(&mut self, i: usize)
        requires
            old(self).wf(),
            i < old(self).capacity(),
        ensures
            final(self).wf(),
            final(self)@ == old(self)@.insert(i as int),
            final(self).size() == old(self).size(),
            final(self).capacity() == old(self).capacity(),
    {
        let w: usize = i / 64;
        let b: u64 = (i % 64) as u64;
        proof {
            lemma_row_set(self.words@, i as int);
            lemma_row_set(self.summary@, w as int);
            lemma_set_bit(self.words[w as int], b);
        }
        let word: u64 = self.words[w] | (1u64 << b);
        self.words.set(w, word);
        let group: u64 = self.summary[w / 64] | (1u64 << ((w % 64) as u64));
        self.summary.set(w / 64, group);
        proof {
            assert(bit(word, b));
            lemma_zero(word);
            assert(self@ =~= old(self)@.insert(i as int));
        }
    }

    /// Mark level `i` empty. Idempotent; clears the summary bit if the word is
    /// now entirely empty.
    pub fn clear(&mut self, i: usize)
        requires
            old(self).wf(),
            i < old(self).capacity(),
        ensures
            final(self).wf(),
            final(self)@ == old(self)@.remove(i as int),
            final(self).size() == old(self).size(),
            final(self).capacity() == old(self).capacity(),
    {
        let w: usize = i / 64;
        let b: u64 = (i % 64) as u64;
        proof {
            lemma_row_clear(self.words@, i as int);
            lemma_row_clear(self.summary@, w as int);
            lemma_clear_bit(self.words[w as int], b);
            lemma_zero(self.words[w as int]);
        }
        let word: u64 = self.words[w] & !(1u64 << b);
        self.words.set(w, word);
        proof {
            lemma_zero(word);
        }
        if word == 0 {
            let group: u64 = self.summary[w / 64] & !(1u64 << ((w % 64) as u64));
            self.summary.set(w / 64, group);
        }
        proof {
            if word != 0 {
                let c = choose|c: u64| c < 64 && bit(word, c);
                assert(bit(old(self).words[w as int], c));
            }
            assert(self@ =~= old(self)@.remove(i as int));
        }
    }

    /// The smallest occupied level `>= from`, if any.
    pub fn next_set_from(&self, from: usize) -> (level: Option<usize>)
        requires
            self.wf(),
        ensures
            match level {
                Some(i) => {
                    &&& from <= i
                    &&& self@.contains(i as int)
                    &&& forall|j: int| from <= j < i ==> !self@.contains(j)
                },
                None => forall|j: int| from <= j ==> !self@.contains(j),
            },
    {
        let w: usize = from / 64;
        if w >= self.words.len() {
            return None;
        }
        let b: u64 = (from % 64) as u64;
        let masked: u64 = self.words[w] & (u64::MAX << b);
        let ghost row = self.words@.update(w as int, masked);
        proof {
            lemma_from_on(self.words@, from as int);
            assert(usize::MAX % 64 == 63);
        }
        if masked != 0 {
            proof {
                lemma_first_in_word(row, w as int);
                let found = w * 64 + u64_trailing_zeros(masked);
                assert forall|j: int| from <= j < found implies !self@.contains(j) by {
                    assert(!bit_at(row, j));
                }
            }
            return Some(w * 64 + masked.trailing_zeros() as usize);
        }
        proof {
            lemma_empty_word(row, w as int);
            assert forall|j: int| from <= j < 64 * w + 64 implies !bit_at(self.words@, j) by {
                assert(!bit_at(row, j));
            }
        }
        match self.next_word_from(w + 1) {
            None => {
                proof {
                    assert forall|j: int| from <= j implies !self@.contains(j) by {
                        if 64 * w + 64 <= j < 64 * self.words.len() {
                            lemma_empty_word(self.words@, j / 64);
                        }
                    }
                }
                None
            },
            Some(nw) => {
                proof {
                    lemma_first_in_word(self.words@, nw as int);
                    let found = nw * 64 + u64_trailing_zeros(self.words[nw as int]);
                    assert forall|j: int| from <= j < found implies !self@.contains(j) by {
                        if 64 * w + 64 <= j < 64 * nw {
                            lemma_empty_word(self.words@, j / 64);
                        }
                    }
                }
                Some(nw * 64 + self.words[nw].trailing_zeros() as usize)
            },
        }
    }

    /// The largest occupied level `<= from`, if any.
    pub fn prev_set_from(&self, from: usize) -> (level: Option<usize>)
        requires
            self.wf(),
        ensures
            match level {
                Some(i) => {
                    &&& i <= from
                    &&& self@.contains(i as int)
                    &&& forall|j: int| i < j <= from ==> !self@.contains(j)
                },
                None => forall|j: int| j <= from ==> !self@.contains(j),
            },
    {
        // Beyond the last word there is nothing: start at its last bit.
        let inside = from / 64 < self.words.len();
        let w: usize = if inside {
            from / 64
        } else {
            self.words.len() - 1
        };
        let b: u64 = if inside {
            (from % 64) as u64
        } else {
            63
        };
        let ghost start = 64 * w + b;
        let mask: u64 = lo_mask_inclusive(b);
        let masked: u64 = self.words[w] & mask;
        let ghost row = self.words@.update(w as int, masked);
        proof {
            lemma_up_to(self.words@, start, mask);
            assert forall|j: int| start < j <= from implies !self@.contains(j) by {}
            assert(usize::MAX % 64 == 63);
        }
        if masked != 0 {
            proof {
                lemma_last_in_word(row, w as int);
                let found = w * 64 + 63 - u64_leading_zeros(masked);
                assert forall|j: int| found < j <= from implies !self@.contains(j) by {
                    assert(!bit_at(row, j));
                }
            }
            return Some(w * 64 + 63 - masked.leading_zeros() as usize);
        }
        proof {
            lemma_empty_word(row, w as int);
            assert forall|j: int| 64 * w <= j <= start implies !bit_at(self.words@, j) by {
                assert(!bit_at(row, j));
            }
        }
        if w == 0 {
            return None;
        }
        match self.prev_word_from(w - 1) {
            None => {
                proof {
                    assert forall|j: int| j <= from implies !self@.contains(j) by {
                        if 0 <= j < 64 * w {
                            lemma_empty_word(self.words@, j / 64);
                        }
                    }
                }
                None
            },
            Some(pw) => {
                proof {
                    lemma_last_in_word(self.words@, pw as int);
                    let found = pw * 64 + 63 - u64_leading_zeros(self.words[pw as int]);
                    assert forall|j: int| found < j <= from implies !self@.contains(j) by {
                        if 64 * pw + 64 <= j < 64 * w {
                            lemma_empty_word(self.words@, j / 64);
                        }
                    }
                }
                Some(pw * 64 + 63 - self.words[pw].leading_zeros() as usize)
            },
        }
    }

    /// First non-empty word index `>= from`, via the summary layer.
    fn next_word_from(&self, from: usize) -> (word: Option<usize>)
        requires
            self.wf(),
        ensures
            match word {
                Some(nw) => {
                    &&& from <= nw < self.words.len()
                    &&& self.words[nw as int] != 0
                    &&& forall|j: int| from <= j < nw ==> #[trigger] self.words[j] == 0
                },
                None => forall|j: int| from <= j < self.words.len() ==> #[trigger] self.words[j]
                    == 0,
            },
    {
        if from >= self.words.len() {
            return None;
        }
        let mut sw: usize = from / 64;
        let sb: u64 = (from % 64) as u64;
        let masked: u64 = self.summary[sw] & (u64::MAX << sb);
        let ghost row = self.summary@.update(sw as int, masked);
        proof {
            lemma_from_on(self.summary@, from as int);
        }
        if masked != 0 {
            proof {
                lemma_first_in_word(row, sw as int);
                let found = sw * 64 + u64_trailing_zeros(masked);
                assert(bit_at(self.summary@, found));
                assert forall|j: int| from <= j < found implies #[trigger] self.words[j] == 0 by {
                    assert(!bit_at(row, j));
                    assert(!bit_at(self.summary@, j));
                }
            }
            return Some(sw * 64 + masked.trailing_zeros() as usize);
        }
        proof {
            lemma_empty_word(row, sw as int);
            assert forall|j: int| from <= j < 64 * sw + 64 && j < self.words.len() implies
                #[trigger] self.words[j] == 0 by {
                assert(!bit_at(row, j));
                assert(!bit_at(self.summary@, j));
            }
        }
        sw = sw + 1;
        while sw < self.summary.len()
            invariant
                self.wf(),
                sw <= self.summary.len(),
                from < 64 * sw,
                forall|j: int|
                    from <= j < 64 * sw && j < self.words.len() ==> #[trigger] self.words[j] == 0,
            decreases self.summary.len() - sw,
        {
            if self.summary[sw] != 0 {
                proof {
                    lemma_first_in_word(self.summary@, sw as int);
                    let found = sw * 64 + u64_trailing_zeros(self.summary[sw as int]);
                    assert(bit_at(self.summary@, found));
                    assert forall|j: int| from <= j < found implies #[trigger] self.words[j]
                        == 0 by {
                        if j >= 64 * sw {
                            assert(!bit_at(self.summary@, j));
                        }
                    }
                }
                return Some(sw * 64 + self.summary[sw].trailing_zeros() as usize);
            }
            proof {
                lemma_empty_word(self.summary@, sw as int);
                assert forall|j: int| from <= j < 64 * sw + 64 && j < self.words.len() implies
                    #[trigger] self.words[j] == 0 by {
                    if j >= 64 * sw {
                        assert(!bit_at(self.summary@, j));
                    }
                }
            }
            sw = sw + 1;
        }
        None
    }

    /// Last non-empty word index `<= from`, via the summary layer.
    fn prev_word_from(&self, from: usize) -> (word: Option<usize>)
        requires
            self.wf(),
            from < self.words.len(),
        ensures
            match word {
                Some(pw) => {
                    &&& pw <= from
                    &&& self.words[pw as int] != 0
                    &&& forall|j: int| pw < j <= from ==> #[trigger] self.words[j] == 0
                },
                None => forall|j: int| 0 <= j <= from ==> #[trigger] self.words[j] == 0,
            },
    {
        let mut sw: usize = from / 64;
        let sb: u64 = (from % 64) as u64;
        let mask: u64 = lo_mask_inclusive(sb);
        let masked: u64 = self.summary[sw] & mask;
        let ghost row = self.summary@.update(sw as int, masked);
        proof {
            lemma_up_to(self.summary@, from as int, mask);
        }
        if masked != 0 {
            proof {
                lemma_last_in_word(row, sw as int);
                let found = sw * 64 + 63 - u64_leading_zeros(masked);
                assert(bit_at(self.summary@, found));
                assert forall|j: int| found < j <= from implies #[trigger] self.words[j] == 0 by {
                    assert(!bit_at(row, j));
                    assert(!bit_at(self.summary@, j));
                }
            }
            return Some(sw * 64 + 63 - masked.leading_zeros() as usize);
        }
        proof {
            lemma_empty_word(row, sw as int);
            assert forall|j: int| 64 * sw <= j <= from implies #[trigger] self.words[j] == 0 by {
                assert(!bit_at(row, j));
                assert(!bit_at(self.summary@, j));
            }
        }
        while sw > 0
            invariant
                self.wf(),
                from < self.words.len(),
                sw < self.summary.len(),
                64 * sw <= from,
                forall|j: int| 64 * sw <= j <= from ==> #[trigger] self.words[j] == 0,
            decreases sw,
        {
            sw = sw - 1;
            if self.summary[sw] != 0 {
                proof {
                    lemma_last_in_word(self.summary@, sw as int);
                    let found = sw * 64 + 63 - u64_leading_zeros(self.summary[sw as int]);
                    assert(bit_at(self.summary@, found));
                    assert forall|j: int| found < j <= from implies #[trigger] self.words[j]
                        == 0 by {
                        if j < 64 * sw + 64 {
                            assert(!bit_at(self.summary@, j));
                        }
                    }
                }
                return Some(sw * 64 + 63 - self.summary[sw].leading_zeros() as usize);
            }
            proof {
                lemma_empty_word(self.summary@, sw as int);
                assert forall|j: int| 64 * sw <= j <= from implies #[trigger] self.words[j]
                    == 0 by {
                    if j < 64 * sw + 64 {
                        assert(!bit_at(self.summary@, j));
                    }
                }
            }
        }
        None
    }
}

} // verus!
