use crate::bucket::g_of_size;
use crate::chunk::FreeChunk;
use crate::llist::{
    after_remove, entry, lemma_thread_frame, lemma_thread_insert, lemma_thread_remove, node_ok,
    nodes_apart, threaded, LlistNode,
};
use crate::memory::Memory;
use crate::model::{
    apart, bucket_of, enlist, in_free, is_free, lemma_enlist, lemma_list_position, lemma_unlist,
    listed, placed, unlist, Chunk,
};
use crate::talloc::{available, frame, reaches, sized, Talloc};
use crate::word::{BIN_COUNT, WORD_SIZE};
use vstd::prelude::*;

verus! {

/// Flipping a bit changes that bit and no other.
proof fn lemma_flip(x: u64, g: u64, h: u64)
    requires
        g < 64,
        h < 64,
    ensures
        ((x ^ (1u64 << g)) >> h) & 1 == if g == h {
            1 - ((x >> h) & 1)
        } else {
            ((x >> h) & 1) as int
        },
{
    assert(((x ^ (1u64 << g)) >> h) & 1 == if g == h {
        1 - ((x >> h) & 1)
    } else {
        ((x >> h) & 1) as int
    }) by (bit_vector)
        requires
            g < 64,
            h < 64,
    ;
    assert((x >> h) & 1 <= 1) by (bit_vector);
}

/// The bits of a shifted word are those further up in the word.
proof fn lemma_shifted(x: u64, k: u64, j: u64)
    requires
        k + j < 64,
    ensures
        ((x >> k) >> j) & 1 == (x >> ((k + j) as u64)) & 1,
{
    let s: u64 = (k + j) as u64;
    assert(((x >> k) >> j) & 1 == (x >> s) & 1) by (bit_vector)
        requires
            k + j < 64,
            s == k + j,
    ;
}

/// The lowest set bit of `x` from bit `k` on.
fn lowest_from(x: u64, k: u64) -> (bit: Option<u64>)
    requires
        k < 64,
    ensures
        bit is None ==> forall|h: u64| k <= h < 64 ==> #[trigger] (x >> h) & 1 == 0,
        bit matches Some(b) ==> k <= b < 64 && (x >> b) & 1 == 1 && forall|h: u64|
            k <= h < b ==> #[trigger] (x >> h) & 1 == 0,
{
    let shifted: u64 = x >> k;
    if shifted == 0 {
        proof {
            assert forall|h: u64| k <= h < 64 implies #[trigger] (x >> h) & 1 == 0 by {
                lemma_shifted(x, k, (h - k) as u64);
                let j: u64 = (h - k) as u64;
                assert((0u64 >> j) & 1 == 0) by (bit_vector);
            }
        }
        None
    } else {
        let zeros: u64 = shifted.trailing_zeros() as u64;
        proof {
            assert((shifted >> zeros) & 1 == 1);
            assert(k + zeros < 64) by {
                if k + zeros >= 64 {
                    assert(((x >> k) >> zeros) & 1 == 0) by (bit_vector)
                        requires
                            k < 64,
                            zeros < 64,
                            k + zeros >= 64,
                    ;
                }
            }
            lemma_shifted(x, k, zeros);
            assert forall|h: u64| k <= h < k + zeros implies #[trigger] (x >> h) & 1 == 0 by {
                let j: u64 = (h - k) as u64;
                lemma_shifted(x, k, j);
                assert((shifted >> j) & 1 == 0);
            }
        }
        Some(k + zeros)
    }
}

/// Flipping the flag of a bucket changes that flag and no other.
proof fn lemma_flip_available(low: u64, high: u64, g: u8)
    requires
        g < BIN_COUNT,
    ensures
        g < 64 ==> forall|h: int|
            0 <= h < 128 ==> #[trigger] available(low ^ (1u64 << (g as u64)), high, h) == if h == g {
                !available(low, high, h)
            } else {
                available(low, high, h)
            },
        g >= 64 ==> forall|h: int|
            0 <= h < 128 ==> #[trigger] available(low, high ^ (1u64 << ((g - 64) as u64)), h)
                == if h == g {
                !available(low, high, h)
            } else {
                available(low, high, h)
            },
{
    assert forall|h: int| 0 <= h < 128 && g < 64 implies #[trigger] available(
        low ^ (1u64 << (g as u64)),
        high,
        h,
    ) == if h == g {
        !available(low, high, h)
    } else {
        available(low, high, h)
    } by {
        if h < 64 {
            lemma_flip(low, g as u64, h as u64);
        }
    }
    assert forall|h: int| 0 <= h < 128 && g >= 64 implies #[trigger] available(
        low,
        high ^ (1u64 << ((g - 64) as u64)),
        h,
    ) == if h == g {
        !available(low, high, h)
    } else {
        available(low, high, h)
    } by {
        if h >= 64 {
            lemma_flip(high, (g - 64) as u64, (h - 64) as u64);
        }
    }
}

/// In words without a bit set no bucket is marked, and each bit of the two words marks
/// one bucket: those of the first word the lower half, those of the second the upper.
pub proof fn law_marks(low: u64, high: u64, g: u8, h: int)
    requires
        g < 128,
        0 <= h < 128,
    ensures
        !available(0, 0, h),
        g < 64 ==> available(low ^ (1u64 << (g as u64)), high, h) == if h == g {
            !available(low, high, h)
        } else {
            available(low, high, h)
        },
        g >= 64 ==> available(low, high ^ (1u64 << ((g - 64) as u64)), h) == if h == g {
            !available(low, high, h)
        } else {
            available(low, high, h)
        },
{
    lemma_flip_available(low, high, g);
    let k: u64 = if h < 64 {
        h as u64
    } else {
        (h - 64) as u64
    };
    assert((0u64 >> k) & 1 == 0) by (bit_vector)
        requires
            k < 64,
    ;
}

/// The nodes of free chunks overlap neither one another nor the bucket words.
proof fn lemma_nodes_apart(chunks: Map<int, Chunk>, llists: int, lo: int, hi: int)
    requires
        placed(chunks, lo, hi),
        apart(chunks),
        lo < hi ==> hi <= llists || llists + 1024 <= lo,
    ensures
        nodes_apart(llists, chunks),
{
}

impl<M: Memory, H> Talloc<M, H> {
    /// The two states differ at most in their memory, their chunks and their lists.
    pub open(crate) spec fn same_bounds(&self, before: &Self) -> bool {
        &&& self.oom_handler == before.oom_handler
        &&& self.arena == before.arena
        &&& self.alloc_base == before.alloc_base
        &&& self.alloc_acme == before.alloc_acme
        &&& self.is_top_free == before.is_top_free
        &&& self.llists == before.llists
    }

    /// The address of the word that holds the first node of bucket `g`.
    pub(crate) fn get_llist_ptr(&self, g: u8) -> (ptr: u64)
        requires
            g < BIN_COUNT,
            self.llists + 1024 <= u64::MAX,
        ensures
            ptr == self.llists + 8 * g,
    {
        self.llists + WORD_SIZE * g as u64
    }

    /// The first node of bucket `g`, or zero.
    pub(crate) fn read_llist(&self, g: u8) -> (node: u64)
        requires
            g < BIN_COUNT,
            self.llists % 8 == 0,
            self.llists + 1024 <= u64::MAX,
            reaches(self.memory.words().dom(), self.llists as int, self.llists + 1024),
        ensures
            node == self.memory.words()[self.llists + 8 * g],
    {
        self.memory.read(self.get_llist_ptr(g))
    }

    /// Sets the availability flag of bucket `g`.
    pub(crate) fn set_avails(&mut self, g: u8)
        requires
            g < BIN_COUNT,
            !available(old(self).availability_low, old(self).availability_high, g as int),
        ensures
            *final(self) == (Talloc {
                availability_low: final(self).availability_low,
                availability_high: final(self).availability_high,
                ..*old(self)
            }),
            forall|h: int|
                0 <= h < 128 ==> #[trigger] available(
                    final(self).availability_low,
                    final(self).availability_high,
                    h,
                ) == (h == g || available(
                    old(self).availability_low,
                    old(self).availability_high,
                    h,
                )),
    {
        proof {
            lemma_flip_available(self.availability_low, self.availability_high, g);
        }
        if g < 64 {
            self.availability_low = self.availability_low ^ (1u64 << (g as u64));
        } else {
            self.availability_high = self.availability_high ^ (1u64 << ((g - 64) as u64));
        }
    }

    /// Clears the availability flag of bucket `g`.
    pub(crate) fn clear_avails(&mut self, g: u8)
        requires
            g < BIN_COUNT,
            available(old(self).availability_low, old(self).availability_high, g as int),
        ensures
            *final(self) == (Talloc {
                availability_low: final(self).availability_low,
                availability_high: final(self).availability_high,
                ..*old(self)
            }),
            forall|h: int|
                0 <= h < 128 ==> #[trigger] available(
                    final(self).availability_low,
                    final(self).availability_high,
                    h,
                ) == (h != g && available(
                    old(self).availability_low,
                    old(self).availability_high,
                    h,
                )),
    {
        proof {
            lemma_flip_available(self.availability_low, self.availability_high, g);
        }
        if g < 64 {
            self.availability_low = self.availability_low ^ (1u64 << (g as u64));
        } else {
            self.availability_high = self.availability_high ^ (1u64 << ((g - 64) as u64));
        }
    }

    /// The lowest bucket above `g` whose availability flag is set.
    pub(crate) fn g_of_larger_nonempty_bucket(&self, g: i8) -> (larger: Option<i8>)
        requires
            -1 <= g,
        ensures
            larger is None ==> forall|h: int|
                g < h < 128 ==> !#[trigger] available(
                    self.availability_low,
                    self.availability_high,
                    h,
                ),
            larger matches Some(l) ==> g < l && available(
                self.availability_low,
                self.availability_high,
                l as int,
            ) && forall|h: int|
                g < h < l ==> !#[trigger] available(
                    self.availability_low,
                    self.availability_high,
                    h,
                ),
    {
        let low: u64 = self.availability_low;
        let high: u64 = self.availability_high;
        // the low flags matter only if a bucket of the lower half is above `g`
        if g < 63 {
            if let Some(bit) = lowest_from(low, (g + 1) as u64) {
                return Some(bit as i8);
            }
            proof {
                assert forall|h: int| g < h < 64 implies !#[trigger] available(low, high, h) by {
                    assert((low >> (h as u64)) & 1 == 0);
                }
            }
            match lowest_from(high, 0) {
                Some(bit) => Some(bit as i8 + 64),
                None => {
                    proof {
                        assert forall|h: int| g < h < 128 implies !#[trigger] available(
                            low,
                            high,
                            h,
                        ) by {
                            if h >= 64 {
                                assert((high >> ((h - 64) as u64)) & 1 == 0);
                            }
                        }
                    }
                    None
                },
            }
        } else if g < 127 {
            match lowest_from(high, (g - 63) as u64) {
                Some(bit) => Some(bit as i8 + 64),
                None => {
                    proof {
                        assert forall|h: int| g < h < 128 implies !#[trigger] available(
                            low,
                            high,
                            h,
                        ) by {
                            assert((high >> ((h - 64) as u64)) & 1 == 0);
                        }
                    }
                    None
                },
            }
        } else {
            None
        }
    }

    /// Records the free chunk from `base` to `acme`.
    pub(crate) fn add_chunk_to_record(&mut self, base: u64, acme: u64)
        requires
            old(self).recorded(),
            0 < old(self).alloc_base <= base,
            base + 24 <= acme <= old(self).alloc_acme,
            base % 8 == 0,
            acme % 8 == 0,
            forall|b: int| #[trigger]
                old(self).chunks@.dom().contains(b) ==> old(self).chunks@[b].acme <= base || acme
                    <= b,
        ensures
            final(self).recorded(),
            final(self).same_bounds(old(self)),
            final(self).chunks@ == old(self).chunks@.insert(
                base as int,
                Chunk { acme: acme as int, used: None },
            ),
            final(self).lists@ == enlist(old(self).lists@, base as int, acme as int),
            frame(
                old(self).memory.words(),
                final(self).memory.words(),
                old(self).llists as int,
                final(self).chunks@,
            ),
    {
        proof {
            reveal(Talloc::recorded);
        }
        let size: u64 = acme - base;
        let g: u8 = g_of_size(size);
        let free_chunk = FreeChunk(base);
        let ghost m = self.memory.words();
        let ghost llists = self.llists as int;
        let ghost chunks = self.chunks@;
        let ghost lists = self.lists@;
        let ghost chunks2 = chunks.insert(base as int, Chunk { acme: acme as int, used: None });
        let ghost lists2 = enlist(lists, base as int, acme as int);
        let head: u64 = self.read_llist(g);
        proof {
            assert(!chunks.dom().contains(base as int));
            lemma_enlist(chunks, lists, base as int, acme as int);
            lemma_nodes_apart(chunks, llists, self.alloc_base as int, self.alloc_acme as int);
            assert(m[llists + 8 * g] == entry(lists[g as int], 0));
            if lists[g as int].len() > 0 {
                assert(is_free(chunks, lists[g as int][0]));
            }
        }
        if head == 0 {
            assert(lists[g as int].len() == 0);
            self.set_avails(g);
        }
        let llist_ptr: u64 = self.get_llist_ptr(g);
        LlistNode::insert(&mut self.memory, free_chunk.node_ptr(), llist_ptr, head);
        let ghost m1 = self.memory.words();
        // the size stands above the node and in the chunk's last word
        self.memory.write(free_chunk.size_ptr(), size);
        self.memory.write(acme - WORD_SIZE, size);
        proof {
            let m2 = self.memory.words();
            self.chunks@ = chunks2;
            self.lists@ = lists2;
            lemma_thread_insert(m, llists, chunks, lists, g as int, base, llist_ptr, head);
            assert forall|h: int, j: int|
                0 <= h < 128 && 0 <= j < lists2[h].len() implies m2[#[trigger] lists2[h][j]]
                == m1[lists2[h][j]] && m2[lists2[h][j] + 8] == m1[lists2[h][j] + 8] by {
                assert(is_free(chunks2, lists2[h][j]));
            }
            lemma_thread_frame(m1, m2, llists, lists2);
            assert forall|b: int| #[trigger] is_free(chunks2, b) implies m2[b + 16]
                == chunks2[b].acme - b && m2[chunks2[b].acme - 8] == chunks2[b].acme - b by {
                if b != base {
                    assert(is_free(chunks, b));
                    if head != 0 {
                        assert(is_free(chunks, head as int));
                    }
                    assert(m2[b + 16] == m[b + 16]);
                    assert(m2[chunks[b].acme - 8] == m[chunks[b].acme - 8]);
                }
            }
            assert forall|a: int|
                !(llists <= a < llists + 1024) && !in_free(
                    chunks2,
                    a,
                ) implies #[trigger] m2[a] == m[a] by {
                assert(chunks2.dom().contains(base as int));
                if head != 0 {
                    assert(is_free(chunks, head as int));
                    assert(chunks2.dom().contains(head as int));
                }
            }
            assert(m2.dom() =~= m.dom());
            assert forall|h: int| 0 <= h < 128 implies (available(
                self.availability_low,
                self.availability_high,
                h,
            ) <==> (#[trigger] lists2[h]).len() > 0) by {
                assert(lists[h].len() > 0 || lists[h].len() == 0);
            }
        }
    }

    /// Strikes the free chunk at `node_ptr`, which is in bucket `g`, from the record.
    pub(crate) fn remove_chunk_from_record(&mut self, node_ptr: u64, g: u8)
        requires
            old(self).recorded(),
            is_free(old(self).chunks@, node_ptr as int),
            g == bucket_of(old(self).chunks@, node_ptr as int),
        ensures
            final(self).recorded(),
            final(self).same_bounds(old(self)),
            final(self).chunks@ == old(self).chunks@.remove(node_ptr as int),
            final(self).lists@ == unlist(
                old(self).lists@,
                node_ptr as int,
                old(self).chunks@[node_ptr as int].acme,
            ),
            frame(
                old(self).memory.words(),
                final(self).memory.words(),
                old(self).llists as int,
                old(self).chunks@,
            ),
    {
        let ghost s0 = *self;
        let ghost k: int;
        proof {
            k = self.lemma_before_removal(node_ptr, g);
        }
        LlistNode::remove(&mut self.memory, node_ptr);
        proof {
            s0.lemma_after_removal(node_ptr, g, k, self.memory.words());
            self.chunks@ = s0.chunks@.remove(node_ptr as int);
            self.lists@ = s0.lists@.update(g as int, s0.lists@[g as int].remove(k));
            reveal(Talloc::recorded);
            assert(s0.lists@[g as int].len() > 0);
        }
        if self.read_llist(g) == 0 {
            self.clear_avails(g);
        }
    }
}

impl<M: Memory, H> Talloc<M, H> {
    /// What taking the free chunk at `node_ptr` out of its list relies on.
    proof fn lemma_before_removal(&self, node_ptr: u64, g: u8) -> (k: int)
        requires
            self.recorded(),
            is_free(self.chunks@, node_ptr as int),
            g == bucket_of(self.chunks@, node_ptr as int),
        ensures
            g < 128,
            0 <= k < self.lists@[g as int].len(),
            self.lists@[g as int][k] == node_ptr,
            k == self.lists@[g as int].index_of(node_ptr as int),
            ({
                let m = self.memory.words();
                &&& m.dom().contains(node_ptr as int)
                &&& m.dom().contains(node_ptr + 8)
                &&& m.dom().contains(m[node_ptr + 8] as int)
                &&& m[node_ptr as int] != 0 ==> m.dom().contains(m[node_ptr as int] + 8)
                &&& node_ptr + 8 <= u64::MAX
                &&& m[node_ptr as int] + 8 <= u64::MAX
            }),
    {
        reveal(Talloc::recorded);
        let chunks = self.chunks@;
        let lists = self.lists@;
        let k = lemma_list_position(chunks, lists, node_ptr as int);
        assert(node_ok(self.memory.words(), self.llists as int, lists, g as int, k));
        if k > 0 {
            assert(is_free(chunks, lists[g as int][k - 1]));
        }
        if k + 1 < lists[g as int].len() {
            assert(is_free(chunks, lists[g as int][k + 1]));
        }
        k
    }

    /// What has become of the record once the free chunk at `node_ptr` has been
    /// taken out of its list.
    proof fn lemma_after_removal(&self, node_ptr: u64, g: u8, k: int, m2: Map<int, u64>)
        requires
            self.recorded(),
            is_free(self.chunks@, node_ptr as int),
            g == bucket_of(self.chunks@, node_ptr as int),
            0 <= g < 128,
            0 <= k < self.lists@[g as int].len(),
            self.lists@[g as int][k] == node_ptr,
            k == self.lists@[g as int].index_of(node_ptr as int),
            m2 == after_remove(self.memory.words(), node_ptr),
        ensures
            ({
                let chunks2 = self.chunks@.remove(node_ptr as int);
                let lists2 = self.lists@.update(g as int, self.lists@[g as int].remove(k));
                &&& lists2 == unlist(
                    self.lists@,
                    node_ptr as int,
                    self.chunks@[node_ptr as int].acme,
                )
                &&& listed(chunks2, lists2)
                &&& threaded(m2, self.llists as int, lists2)
                &&& sized(m2, chunks2)
                &&& frame(self.memory.words(), m2, self.llists as int, self.chunks@)
                &&& m2[self.llists + 8 * g] == 0 <==> lists2[g as int].len() == 0
            }),
    {
        reveal(Talloc::recorded);
        let m = self.memory.words();
        let llists = self.llists as int;
        let chunks = self.chunks@;
        let lists = self.lists@;
        let b0 = node_ptr as int;
        let chunks2 = chunks.remove(b0);
        let lists2 = lists.update(g as int, lists[g as int].remove(k));
        let next: int = m[b0] as int;
        let slot0: int = m[b0 + 8] as int;
        lemma_unlist(chunks, lists, b0);
        lemma_nodes_apart(chunks, llists, self.alloc_base as int, self.alloc_acme as int);
        lemma_thread_remove(m, llists, chunks, lists, g as int, k, node_ptr);
        assert(node_ok(m, llists, lists, g as int, k));
        if k > 0 {
            assert(is_free(chunks, lists[g as int][k - 1]));
        }
        if k + 1 < lists[g as int].len() {
            assert(is_free(chunks, lists[g as int][k + 1]));
        }
        assert(m2.dom() =~= m.dom()) by {
            self.lemma_before_removal(node_ptr, g);
        }
        assert(m2[llists + 8 * g] == entry(lists2[g as int], 0));
        if lists2[g as int].len() > 0 {
            assert(is_free(chunks2, lists2[g as int][0]));
        }
        assert forall|b: int| #[trigger] is_free(chunks2, b) implies m2[b + 16] == chunks2[b].acme
            - b && m2[chunks2[b].acme - 8] == chunks2[b].acme - b by {
            assert(is_free(chunks, b));
            assert(m2[b + 16] == m[b + 16]);
            assert(m2[chunks[b].acme - 8] == m[chunks[b].acme - 8]);
        }
        assert forall|a: int|
            !(llists <= a < llists + 1024) && !in_free(chunks, a) implies #[trigger] m2[a] == m[a] by {
            if a == slot0 && k > 0 {
                assert(chunks.dom().contains(slot0));
            }
            if next != 0 && a == next + 8 {
                assert(chunks.dom().contains(next));
            }
        }
    }
}

} // verus!
