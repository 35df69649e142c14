use crate::word::round_up;
use vstd::prelude::*;

verus! {

/// The machine's memory as the allocator sees it: a store of words, each at an
/// address of its own.
pub trait Memory: Sized {
    /// The accessible words, by address. Memory of which nothing is said has none.
    open spec fn words(&self) -> Map<int, u64> {
        Map::empty()
    }

    /// Whether the word at `addr` can be read and written.
    fn has(&self, addr: u64) -> (answer: bool)
        ensures
            answer == self.words().dom().contains(addr as int),
    ;

    /// Reads the word at `addr`.
    fn read(&self, addr: u64) -> (word: u64)
        requires
            self.words().dom().contains(addr as int),
        ensures
            word == self.words()[addr as int],
    ;

    /// Writes `word` at `addr`. No other word changes.
    fn write(&mut self, addr: u64, word: u64)
        requires
            old(self).words().dom().contains(addr as int),
        ensures
            final(self).words() == old(self).words().insert(addr as int, word),
    ;
}

/// The byte at `a`. The lowest byte of a word stands first.
pub open spec fn byte_at(m: Map<int, u64>, a: int) -> u64 {
    (m[a - a % 8] >> ((8 * (a % 8)) as u64)) & 0xff
}

/// The bits of the first `n` bytes of a word.
pub open spec fn first_bytes(n: int) -> u64 {
    ((1u64 << ((8 * n) as u64)) - 1) as u64
}

/// The word with the first `n` bytes of `low` and the other bytes of `high`.
pub open spec fn overlay(low: u64, high: u64, n: int) -> u64 {
    (low & first_bytes(n)) | (high & !first_bytes(n))
}

/// Memory after the `size` bytes at `src` have been copied to `dst`. Of the word in
/// which they end, what comes behind them stays.
pub open spec fn copied(m: Map<int, u64>, m2: Map<int, u64>, src: int, dst: int, size: int) -> bool {
    let rest: int = size % 8;
    let whole: int = size - rest;
    &&& m2.dom() == m.dom()
    &&& forall|k: int| 0 <= k < whole && k % 8 == 0 ==> #[trigger] m2[dst + k] == m[src + k]
    &&& rest > 0 ==> m2[dst + whole] == overlay(m[src + whole], m[dst + whole], rest)
    &&& forall|a: int| !(dst <= a < round_up(dst + size, 8)) ==> #[trigger] m2[a] == m[a]
}

/// The bytes of a word made of two.
proof fn lemma_overlay(low: u64, high: u64, n: u64, i: u64)
    requires
        0 < n < 8,
        i < 8,
    ensures
        (overlay(low, high, n as int) >> ((8 * i) as u64)) & 0xff == if i < n {
            (low >> ((8 * i) as u64)) & 0xff
        } else {
            (high >> ((8 * i) as u64)) & 0xff
        },
{
    let s: u64 = (8 * n) as u64;
    let t: u64 = (8 * i) as u64;
    assert(1u64 << s >= 1) by (bit_vector)
        requires
            s < 64,
    ;
    let mask: u64 = ((1u64 << s) - 1) as u64;
    if i < n {
        assert((((low & mask) | (high & !mask)) >> t) & 0xff == (low >> t) & 0xff) by (bit_vector)
            requires
                mask == ((1u64 << s) - 1) as u64,
                t + 8 <= s,
                s < 64,
        ;
    } else {
        assert((((low & mask) | (high & !mask)) >> t) & 0xff == (high >> t) & 0xff) by (bit_vector)
            requires
                mask == ((1u64 << s) - 1) as u64,
                s <= t,
                t < 64,
        ;
    }
}

/// A copy changes the bytes at `dst` to those at `src`, and no others.
pub proof fn law_copied(m: Map<int, u64>, m2: Map<int, u64>, src: int, dst: int, size: int)
    requires
        copied(m, m2, src, dst, size),
        src % 8 == 0,
        dst % 8 == 0,
        0 <= size,
    ensures
        forall|i: int|
            0 <= i < size ==> #[trigger] byte_at(m2, dst + i) == byte_at(m, src + i),
        forall|a: int| !(dst <= a < dst + size) ==> #[trigger] byte_at(m2, a) == byte_at(m, a),
{
    let rest: int = size % 8;
    let whole: int = size - rest;
    assert forall|i: int| 0 <= i < size implies #[trigger] byte_at(m2, dst + i) == byte_at(
        m,
        src + i,
    ) by {
        let k: int = i - i % 8;
        assert((dst + i) % 8 == i % 8 && (src + i) % 8 == i % 8);
        assert(dst + i - (dst + i) % 8 == dst + k && src + i - (src + i) % 8 == src + k);
        if k < whole {
            assert(m2[dst + k] == m[src + k]);
        } else {
            assert(k == whole);
            lemma_overlay(m[src + k], m[dst + k], rest as u64, (i % 8) as u64);
        }
    }
    assert forall|a: int| !(dst <= a < dst + size) implies #[trigger] byte_at(m2, a) == byte_at(
        m,
        a,
    ) by {
        let w: int = a - a % 8;
        if w == dst + whole && rest > 0 {
            lemma_overlay(m[src + whole], m[w], rest as u64, (a % 8) as u64);
        } else {
            assert(!(dst <= w < round_up(dst + size, 8)));
            assert(m2[w] == m[w]);
        }
    }
}

/// A word is told by its bytes.
pub proof fn law_bytes(m: Map<int, u64>, m2: Map<int, u64>, a: int)
    requires
        a % 8 == 0,
        forall|i: int| 0 <= i < 8 ==> #[trigger] byte_at(m2, a + i) == byte_at(m, a + i),
    ensures
        m2[a] == m[a],
{
    let x: u64 = m[a];
    let y: u64 = m2[a];
    assert(byte_at(m2, a + 0) == byte_at(m, a + 0) && (a + 0) % 8 == 0);
    assert(byte_at(m2, a + 1) == byte_at(m, a + 1) && (a + 1) % 8 == 1);
    assert(byte_at(m2, a + 2) == byte_at(m, a + 2) && (a + 2) % 8 == 2);
    assert(byte_at(m2, a + 3) == byte_at(m, a + 3) && (a + 3) % 8 == 3);
    assert(byte_at(m2, a + 4) == byte_at(m, a + 4) && (a + 4) % 8 == 4);
    assert(byte_at(m2, a + 5) == byte_at(m, a + 5) && (a + 5) % 8 == 5);
    assert(byte_at(m2, a + 6) == byte_at(m, a + 6) && (a + 6) % 8 == 6);
    assert(byte_at(m2, a + 7) == byte_at(m, a + 7) && (a + 7) % 8 == 7);
    assert(x == y) by (bit_vector)
        requires
            (y >> 0u64) & 0xff == (x >> 0u64) & 0xff,
            (y >> 8u64) & 0xff == (x >> 8u64) & 0xff,
            (y >> 16u64) & 0xff == (x >> 16u64) & 0xff,
            (y >> 24u64) & 0xff == (x >> 24u64) & 0xff,
            (y >> 32u64) & 0xff == (x >> 32u64) & 0xff,
            (y >> 40u64) & 0xff == (x >> 40u64) & 0xff,
            (y >> 48u64) & 0xff == (x >> 48u64) & 0xff,
            (y >> 56u64) & 0xff == (x >> 56u64) & 0xff,
    ;
}

/// Copies `count` words from `src` to `dst`, which may overlap.
pub fn copy_words<M: Memory>(memory: &mut M, src: u64, dst: u64, count: u64)
    requires
        src + 8 * count <= u64::MAX,
        dst + 8 * count <= u64::MAX,
        src % 8 == 0,
        dst % 8 == 0,
        forall|k: int| 0 <= k < count ==> #[trigger] old(memory).words().dom().contains(src + 8 * k),
        forall|k: int| 0 <= k < count ==> #[trigger] old(memory).words().dom().contains(dst + 8 * k),
    ensures
        final(memory).words().dom() == old(memory).words().dom(),
        forall|k: int|
            0 <= k < count ==> #[trigger] final(memory).words()[dst + 8 * k] == old(
                memory).words()[src + 8 * k],
        forall|a: int|
            !(dst <= a < dst + 8 * count) ==> #[trigger] final(memory).words()[a] == old(
                memory).words()[a],
{
    let ghost m = memory.words();
    // the words that are overwritten have been read before
    if dst <= src {
        let mut i: u64 = 0;
        while i < count
            invariant
                i <= count,
                m == old(memory).words(),
                dst <= src,
                src + 8 * count <= u64::MAX,
                forall|k: int| 0 <= k < count ==> #[trigger] m.dom().contains(src + 8 * k),
                forall|k: int| 0 <= k < count ==> #[trigger] m.dom().contains(dst + 8 * k),
                memory.words().dom() == m.dom(),
                forall|k: int|
                    0 <= k < i ==> #[trigger] memory.words()[dst + 8 * k] == m[src + 8 * k],
                forall|a: int|
                    !(dst <= a < dst + 8 * i) ==> #[trigger] memory.words()[a] == m[a],
            decreases count - i,
        {
            assert(m.dom().contains(src + 8 * i));
            assert(m.dom().contains(dst + 8 * i));
            let word: u64 = memory.read(src + 8 * i);
            memory.write(dst + 8 * i, word);
            i = i + 1;
            assert(memory.words().dom() =~= m.dom());
        }
    } else {
        let mut i: u64 = count;
        while i > 0
            invariant
                i <= count,
                m == old(memory).words(),
                src < dst,
                src % 8 == 0,
                dst % 8 == 0,
                dst + 8 * count <= u64::MAX,
                forall|k: int| 0 <= k < count ==> #[trigger] m.dom().contains(src + 8 * k),
                forall|k: int| 0 <= k < count ==> #[trigger] m.dom().contains(dst + 8 * k),
                memory.words().dom() == m.dom(),
                forall|k: int|
                    i <= k < count ==> #[trigger] memory.words()[dst + 8 * k] == m[src + 8 * k],
                forall|a: int|
                    !(dst + 8 * i <= a < dst + 8 * count) ==> #[trigger] memory.words()[a] == m[a],
            decreases i,
        {
            i = i - 1;
            assert(m.dom().contains(src + 8 * i));
            assert(m.dom().contains(dst + 8 * i));
            let word: u64 = memory.read(src + 8 * i);
            memory.write(dst + 8 * i, word);
            assert(memory.words().dom() =~= m.dom());
        }
    }
}

/// Copies `size` bytes from `src` to `dst`, which must not overlap.
pub fn copy_nonoverlapping<M: Memory>(memory: &mut M, src: u64, dst: u64, size: u64)
    requires
        src % 8 == 0,
        dst % 8 == 0,
        src + size + 7 <= u64::MAX,
        dst + size + 7 <= u64::MAX,
        round_up(src + size, 8) <= dst || round_up(dst + size, 8) <= src,
        forall|k: int|
            0 <= k < size && k % 8 == 0 ==> #[trigger] old(memory).words().dom().contains(src + k),
        forall|k: int|
            0 <= k < size && k % 8 == 0 ==> #[trigger] old(memory).words().dom().contains(dst + k),
    ensures
        copied(old(memory).words(), final(memory).words(), src as int, dst as int, size as int),
{
    let ghost m = memory.words();
    let rest: u64 = size % 8;
    let whole: u64 = size - rest;
    copy_words(memory, src, dst, whole / 8);
    let ghost m1 = memory.words();
    assert forall|k: int| 0 <= k < whole && k % 8 == 0 implies #[trigger] m1[dst + k] == m[src
        + k] by {
        assert(k == 8 * (k / 8));
    }
    if rest > 0 {
        assert(m.dom().contains(src + whole));
        assert(m.dom().contains(dst + whole));
        let shift: u64 = 8 * rest;
        assert(1u64 << shift >= 1) by (bit_vector)
            requires
                shift < 64,
        ;
        let mask: u64 = (1u64 << shift) - 1;
        let low: u64 = memory.read(src + whole);
        let high: u64 = memory.read(dst + whole);
        memory.write(dst + whole, (low & mask) | (high & !mask));
        assert(memory.words().dom() =~= m.dom());
    }
}

/// Memory that is one run of words, the first of them at the address `base`.
pub struct WordMemory {
    base: u64,
    words: Vec<u64>,
}

impl WordMemory {
    /// The address of the first word.
    pub closed spec fn start(&self) -> int {
        self.base as int
    }

    /// The number of words.
    pub closed spec fn count(&self) -> int {
        self.words@.len() as int
    }

    /// Memory of `count` words, all zero, from the address `base` on.
    pub fn new(base: u64, count: usize) -> (memory: WordMemory)
        ensures
            memory.start() == base,
            memory.count() == count,
            forall|a: int| #[trigger]
                memory.words().dom().contains(a) <==> base <= a < base + 8 * count && (a - base) % 8
                    == 0,
            forall|a: int| #[trigger]
                memory.words().dom().contains(a) ==> memory.words()[a] == 0,
    {
        WordMemory { base, words: vec![0; count] }
    }
}

impl Memory for WordMemory {
    closed spec fn words(&self) -> Map<int, u64> {
        Map::new(
            |a: int| self.base <= a < self.base + 8 * self.words@.len() && (a - self.base) % 8 == 0,
            |a: int| self.words@[(a - self.base) / 8],
        )
    }

    fn has(&self, addr: u64) -> bool {
        assert(self.words.len() <= usize::MAX);
        addr >= self.base && (addr - self.base) % 8 == 0 && (addr - self.base) / 8
            < self.words.len() as u64
    }

    fn read(&self, addr: u64) -> u64 {
        assert(self.words.len() <= usize::MAX);
        self.words[((addr - self.base) / 8) as usize]
    }

    fn write(&mut self, addr: u64, word: u64) {
        assert(self.words.len() <= usize::MAX);
        let index: usize = ((addr - self.base) / 8) as usize;
        self.words[index] = word;
        assert(self.words() =~= old(self).words().insert(addr as int, word));
    }
}

} // verus!
