//! A 32x32 square of cells stored as a bit mask of sixteen 64-bit words.

use vstd::prelude::*;

verus! {

/// Side length of a chunk, in cells.
pub const CHUNK_SIZE: usize = 32;

/// Number of cells in a chunk.
pub const CHUNK_BITS: usize = 1024;

/// Number of cells held by one word of the mask.
pub const BITS_PER_U64: usize = 64;

/// Number of words in the mask.
pub const U64_COUNT: usize = 16;

/// Bit `i` of the word `w`.
pub open spec fn word_bit(w: u64, i: int) -> bool {
    (w >> (i as u64)) & 1u64 == 1u64
}

/// The number of set bits of `w` among its `n` lowest positions.
pub open spec fn bits_below(w: u64, n: nat) -> nat
    decreases n,
{
    if n == 0 {
        0
    } else {
        bits_below(w, (n - 1) as nat) + (if word_bit(w, n - 1) { 1nat } else { 0nat })
    }
}

/// The number of ones in the binary representation of `w`.
pub open spec fn ones(w: u64) -> nat {
    bits_below(w, 64)
}

/// `u64::count_ones`: the number of ones in the binary representation.
#[verifier::external_body]
fn count_ones(w: u64) -> (r: u32)
    ensures
        r == ones(w),
{
    w.count_ones()
}

proof fn lemma_bits_below_bound(w: u64, n: nat)
    ensures
        bits_below(w, n) <= n,
    decreases n,
{
    if n > 0 {
        lemma_bits_below_bound(w, (n - 1) as nat);
    }
}

/// A word with no set bit among its `n` lowest positions counts zero there.
proof fn lemma_bits_below_zero(w: u64, n: nat)
    requires
        n <= 64,
    ensures
        bits_below(w, n) == 0 <==> (forall|j: int| 0 <= j < n ==> !word_bit(w, j)),
    decreases n,
{
    if n > 0 {
        lemma_bits_below_zero(w, (n - 1) as nat);
    }
}

proof fn lemma_word_zero(w: u64)
    ensures
        w == 0 <==> (forall|j: int| 0 <= j < 64 ==> !word_bit(w, j)),
{
    if w == 0 {
        assert forall|j: int| 0 <= j < 64 implies !word_bit(w, j) by {
            let jj = j as u64;
            assert((0u64 >> jj) & 1u64 == 0u64) by (bit_vector);
        }
    } else {
        vstd::std_specs::bits::axiom_u64_trailing_zeros(w);
        let t = vstd::std_specs::bits::u64_trailing_zeros(w);
        assert(word_bit(w, t as int));
    }
}

/// Setting or clearing bit `k` leaves every other bit alone.
proof fn lemma_update_bit(w: u64, k: u64, j: u64)
    by (bit_vector)
    requires
        k < 64,
        j < 64,
    ensures
        ((w | (1u64 << k)) >> j) & 1u64 == (if j == k { 1u64 } else { (w >> j) & 1u64 }),
        ((w & !(1u64 << k)) >> j) & 1u64 == (if j == k { 0u64 } else { (w >> j) & 1u64 }),
{
}

/// Clearing the lowest set bit `t` of a nonzero word, with `b & (b - 1)`,
/// leaves every other bit alone and makes the word smaller.
pub proof fn lemma_clear_lowest(b: u64, t: u64, j: u64)
    by (bit_vector)
    requires
        b != 0,
        t < 64,
        j < 64,
        (b >> t) & 1u64 == 1u64,
        t == 0 || b << ((64 - t) as u64) == 0,
    ensures
        ((b & ((b - 1) as u64)) >> j) & 1u64 == (if j == t { 0u64 } else { (b >> j) & 1u64 }),
        (b & ((b - 1) as u64)) < b,
{
}

/// The lowest set bit of a nonzero word, and what it tells of the others.
pub proof fn lemma_lowest_bit(b: u64)
    requires
        b != 0,
    ensures
        b.trailing_zeros() < 64,
        word_bit(b, b.trailing_zeros() as int),
        b.trailing_zeros() == 0 || b << ((64 - b.trailing_zeros()) as u64) == 0,
{
    vstd::std_specs::bits::axiom_u64_trailing_zeros(b);
}

/// A chunk: bit `y * 32 + x` of the mask tells whether the cell at local
/// position `(x, y)` is alive.
#[derive(Clone, Copy)]
pub(crate) struct Chunk {
    pub(crate) bits: [u64; 16],
}

impl Chunk {
    /// Whether bit number `idx` of the mask is set.
    pub(crate) open spec fn bit(self, idx: int) -> bool {
        word_bit(self.bits@[idx / 64], idx % 64)
    }

    /// Whether the cell at local position `(x, y)` is alive.
    pub(crate) open spec fn cell(self, x: int, y: int) -> bool {
        self.bit(y * 32 + x)
    }

    /// Whether some cell of the chunk is alive.
    pub(crate) open spec fn has_live_cell(self) -> bool {
        exists|x: int, y: int| 0 <= x < 32 && 0 <= y < 32 && #[trigger] self.cell(x, y)
    }

    /// The number of live cells, counted word by word.
    pub(crate) open spec fn live_count(self) -> nat {
        self.count_words(16)
    }

    /// The number of live cells in the first `n` words.
    pub(crate) open spec fn count_words(self, n: nat) -> nat
        decreases n,
    {
        if n == 0 {
            0
        } else {
            self.count_words((n - 1) as nat) + ones(self.bits@[n - 1])
        }
    }

    /// An empty chunk.
    pub(crate) fn new() -> (c: Self)
        ensures
            forall|x: int, y: int| 0 <= x < 32 && 0 <= y < 32 ==> !#[trigger] c.cell(x, y),
            forall|i: int| 0 <= i < 16 ==> c.bits@[i] == 0,
    {
        let c = Chunk { bits: [0u64; 16] };
        assert forall|x: int, y: int| 0 <= x < 32 && 0 <= y < 32 implies !#[trigger] c.cell(x, y) by {
            lemma_word_zero(0u64);
            assert(c.bits@[(y * 32 + x) / 64] == 0);
        }
        c
    }

    /// Whether the cell at local position `(x, y)` is alive.
    pub(crate) fn get_local(&self, x: usize, y: usize) -> (alive: bool)
        requires
            x < 32,
            y < 32,
        ensures
            alive == self.cell(x as int, y as int),
    {
        let idx = y * CHUNK_SIZE + x;
        (self.bits[idx / BITS_PER_U64] >> ((idx % BITS_PER_U64) as u64)) & 1 == 1
    }

    /// Makes the cell at local position `(x, y)` alive or dead; every other
    /// cell keeps its state.
    pub(crate) fn set_local(&mut self, x: usize, y: usize, alive: bool)
        requires
            x < 32,
            y < 32,
        ensures
            final(self).cell(x as int, y as int) == alive,
            forall|a: int, b: int|
                0 <= a < 32 && 0 <= b < 32 && !(a == x && b == y) ==> #[trigger] final(self).cell(
                    a,
                    b,
                ) == old(self).cell(a, b),
    {
        let idx = y * CHUNK_SIZE + x;
        let w = idx / BITS_PER_U64;
        let k = (idx % BITS_PER_U64) as u64;
        let mask = 1u64 << k;
        if alive {
            self.bits[w] = self.bits[w] | mask;
        } else {
            self.bits[w] = self.bits[w] & !mask;
        }
        proof {
            let ow = old(self).bits@[w as int];
            lemma_update_bit(ow, k, k);
            assert forall|a: int, b: int|
                0 <= a < 32 && 0 <= b < 32 && !(a == x && b == y) implies #[trigger] self.cell(
                a,
                b,
            ) == old(self).cell(a, b) by {
                let i = b * 32 + a;
                if i / 64 == w as int {
                    lemma_update_bit(ow, k, (i % 64) as u64);
                }
            }
        }
    }

    /// The number of live cells in the chunk.
    pub(crate) fn count_alive(&self) -> (n: u32)
        ensures
            n == self.live_count(),
            n == 0 <==> !self.has_live_cell(),
    {
        let mut n: u32 = 0;
        let mut i: usize = 0;
        while i < U64_COUNT
            invariant
                i <= 16,
                n == self.count_words(i as nat),
                n <= 64 * i,
            decreases 16 - i,
        {
            let c = count_ones(self.bits[i]);
            proof {
                lemma_bits_below_bound(self.bits@[i as int], 64);
            }
            n = n + c;
            i = i + 1;
        }
        proof {
            self.lemma_count_zero(16);
        }
        n
    }

    /// The count over the first `n` words is zero exactly when those words
    /// hold no live cell.
    proof fn lemma_count_zero(self, n: nat)
        requires
            n <= 16,
        ensures
            self.count_words(n) == 0 <==> (forall|i: int| 0 <= i < n ==> self.bits@[i] == 0),
            n == 16 ==> (self.count_words(n) == 0 <==> !self.has_live_cell()),
        decreases n,
    {
        if n > 0 {
            self.lemma_count_zero((n - 1) as nat);
            let w = self.bits@[n - 1];
            lemma_bits_below_zero(w, 64);
            lemma_word_zero(w);
        }
        if n == 16 {
            if self.count_words(n) == 0 {
                if self.has_live_cell() {
                    let (x, y) = choose|x: int, y: int|
                        0 <= x < 32 && 0 <= y < 32 && #[trigger] self.cell(x, y);
                    let i = y * 32 + x;
                    lemma_word_zero(self.bits@[i / 64]);
                }
            } else {
                let i = choose|i: int| 0 <= i < 16 && self.bits@[i] != 0;
                let w = self.bits@[i];
                lemma_word_zero(w);
                let j = choose|j: int| 0 <= j < 64 && word_bit(w, j);
                let idx = i * 64 + j;
                assert(idx / 64 == i && idx % 64 == j);
                assert(self.cell(idx % 32, idx / 32));
            }
        }
    }
}

} // verus!
