use crate::layout::Layout;
use crate::llist::{entry, node_ok};
use crate::memory::{copy_words, Memory};
use crate::model::{chunk_fits, in_free, is_free, Chunk};
use crate::oom::same_allocation;
use crate::talloc::{fills, frame, has_bins, lemma_not_in_free, may_use, tag_ok, usable, Talloc};
use crate::word::BIN_COUNT;
use vstd::prelude::*;

verus! {

/// As `node_ok`, with the words of the buckets below `g` from `dest` on, and of the
/// others from `llists` on.
spec fn node_between(
    m: Map<int, u64>,
    llists: int,
    dest: int,
    lists: Seq<Seq<int>>,
    g: int,
    k: int,
    j: int,
) -> bool {
    if k < g {
        node_ok(m, dest, lists, k, j)
    } else {
        node_ok(m, llists, lists, k, j)
    }
}

/// Of the lists in memory, the buckets below `g` have their first nodes refer to the
/// words from `dest` on, and the others still to those from `llists` on.
spec fn redirected(
    m: Map<int, u64>,
    llists: int,
    dest: int,
    lists: Seq<Seq<int>>,
    g: int,
) -> bool {
    &&& forall|k: int| 0 <= k < 128 ==> m[dest + 8 * k] == entry(#[trigger] lists[k], 0)
    &&& forall|k: int, j: int|
        0 <= k < 128 && 0 <= j < lists[k].len() ==> #[trigger] node_between(
            m,
            llists,
            dest,
            lists,
            g,
            k,
            j,
        )
}

/// Every free chunk holds in its size words what it did.
spec fn same_sizes(m: Map<int, u64>, m2: Map<int, u64>, chunks: Map<int, Chunk>) -> bool {
    forall|b: int| #[trigger]
        is_free(chunks, b) ==> m2[b + 16] == m[b + 16] && m2[chunks[b].acme - 8] == m[chunks[b].acme
            - 8]
}

impl<M: Memory, H> Talloc<M, H> {
    /// Redirecting the first node of one more bucket.
    proof fn lemma_redirect(&self, m0: Map<int, u64>, m: Map<int, u64>, dest: int, g: int)
        requires
            self.recorded(),
            0 <= g < 128,
            self.lists@[g].len() > 0,
            dest % 8 == 0,
            self.alloc_base < self.alloc_acme ==> self.alloc_acme <= dest || dest + 1024
                <= self.alloc_base,
            redirected(m, self.llists as int, dest, self.lists@, g),
            same_sizes(m0, m, self.chunks@),
            frame(m0, m, dest, self.chunks@),
            0 <= dest + 8 * g <= u64::MAX,
            m.dom() == self.memory.words().dom(),
        ensures
            m.dom().contains(self.lists@[g][0] + 8),
            self.lists@[g][0] + 8 <= u64::MAX,
            ({
                let m2 = m.insert(self.lists@[g][0] + 8, (dest + 8 * g) as u64);
                &&& redirected(m2, self.llists as int, dest, self.lists@, g + 1)
                &&& same_sizes(m0, m2, self.chunks@)
                &&& frame(m0, m2, dest, self.chunks@)
            }),
    {
        reveal(Talloc::recorded);
        let chunks = self.chunks@;
        let lists = self.lists@;
        let llists = self.llists as int;
        let lo = self.alloc_base as int;
        let hi = self.alloc_acme as int;
        let h = lists[g][0];
        let m2 = m.insert(h + 8, (dest + 8 * g) as u64);
        assert(is_free(chunks, h));
        assert(chunk_fits(lo, hi, h, chunks[h]));
        assert(in_free(chunks, h + 8));
        assert forall|k: int| 0 <= k < 128 implies m2[dest + 8 * k] == entry(
            #[trigger] lists[k],
            0,
        ) by {}
        assert forall|k: int, j: int|
            0 <= k < 128 && 0 <= j < lists[k].len() implies #[trigger] node_between(
            m2,
            llists,
            dest,
            lists,
            g + 1,
            k,
            j,
        ) by {
            let b = lists[k][j];
            assert(is_free(chunks, b));
            assert(chunk_fits(lo, hi, b, chunks[b]));
            assert(node_between(m, llists, dest, lists, g, k, j));
            if k == g && j == 0 {
            } else {
                assert(b != h) by {
                    if k == g {
                        assert(lists[g].no_duplicates());
                    }
                }
            }
        }
        assert forall|b: int| #[trigger] is_free(chunks, b) implies m2[b + 16] == m0[b + 16]
            && m2[chunks[b].acme - 8] == m0[chunks[b].acme - 8] by {
            assert(chunk_fits(lo, hi, b, chunks[b]));
        }
        assert(m2.dom() =~= m.dom());
    }

    /// The lists stand in memory, with the bucket words copied to `dest`.
    proof fn lemma_copied_bins(&self, m: Map<int, u64>, dest: int)
        requires
            self.recorded(),
            self.alloc_base < self.alloc_acme ==> self.alloc_acme <= dest || dest + 1024
                <= self.alloc_base,
            forall|k: int|
                0 <= k < 128 ==> #[trigger] m[dest + 8 * k] == self.memory.words()[self.llists + 8
                    * k],
            forall|a: int|
                !(dest <= a < dest + 1024) ==> #[trigger] m[a] == self.memory.words()[a],
            m.dom() == self.memory.words().dom(),
        ensures
            redirected(m, self.llists as int, dest, self.lists@, 0),
            same_sizes(self.memory.words(), m, self.chunks@),
            frame(self.memory.words(), m, dest, self.chunks@),
    {
        reveal(Talloc::recorded);
        let m0 = self.memory.words();
        let chunks = self.chunks@;
        let lists = self.lists@;
        let lo = self.alloc_base as int;
        let hi = self.alloc_acme as int;
        assert forall|k: int| 0 <= k < 128 implies m[dest + 8 * k] == entry(#[trigger] lists[k], 0) by {
            assert(m[dest + 8 * k] == m0[self.llists + 8 * k]);
        }
        assert forall|k: int, j: int|
            0 <= k < 128 && 0 <= j < lists[k].len() implies #[trigger] node_between(
            m,
            self.llists as int,
            dest,
            lists,
            0,
            k,
            j,
        ) by {
            let b = lists[k][j];
            assert(is_free(chunks, b));
            assert(chunk_fits(lo, hi, b, chunks[b]));
            assert(node_ok(m0, self.llists as int, lists, k, j));
        }
        assert forall|b: int| #[trigger] is_free(chunks, b) implies m[b + 16] == m0[b + 16]
            && m[chunks[b].acme - 8] == m0[chunks[b].acme - 8] by {
            assert(chunk_fits(lo, hi, b, chunks[b]));
        }
    }

    /// The allocator with its buckets at `dest` is in order.
    proof fn lemma_moved(before: Self, after: Self, dest: int)
        requires
            before.wf(),
            after == (Talloc { memory: after.memory, llists: after.llists, ..before }),
            after.llists == dest,
            has_bins(before.memory.words().dom(), dest),
            usable(before.memory.words().dom(), dest, before.arena),
            redirected(after.memory.words(), before.llists as int, dest, before.lists@, 128),
            same_sizes(before.memory.words(), after.memory.words(), before.chunks@),
            frame(before.memory.words(), after.memory.words(), dest, before.chunks@),
        ensures
            after.wf(),
    {
        let m = before.memory.words();
        let m2 = after.memory.words();
        let chunks = before.chunks@;
        let lo = before.alloc_base as int;
        let hi = before.alloc_acme as int;
        before.lemma_laid_out();
        before.lemma_clear_of(dest);
        assert(after.recorded()) by {
            reveal(Talloc::recorded);
            assert forall|k: int, j: int|
                0 <= k < 128 && 0 <= j < after.lists@[k].len() implies #[trigger] node_ok(
                m2,
                dest,
                after.lists@,
                k,
                j,
            ) by {
                assert(node_between(m2, before.llists as int, dest, after.lists@, 128, k, j));
            }
        }
        assert forall|b: int| #[trigger] chunks.dom().contains(b) implies tag_ok(m2, chunks, b) by {
            assert(tag_ok(m, chunks, b));
            assert(chunk_fits(lo, hi, b, chunks[b]));
            if chunks[b].used is Some {
                lemma_not_in_free(chunks, b);
                let u = chunks[b].used->0;
                assert(!in_free(chunks, b));
                assert(!in_free(chunks, u.ptr - 8));
                assert(m2[b] == m[b]);
                assert(m2[u.ptr - 8] == m[u.ptr - 8]);
            }
        }
    }

    /// Bucket words outside the arena are outside the heap.
    proof fn lemma_clear_of(&self, dest: int)
        requires
            self.wf(),
            usable(self.memory.words().dom(), dest, self.arena),
        ensures
            self.alloc_base < self.alloc_acme ==> self.alloc_acme <= dest || dest + 1024
                <= self.alloc_base,
    {
        reveal(usable);
        reveal(fills);
    }

    /// Moves the buckets of the allocator to the words from `dest` on.
    pub fn mov(self, dest: u64) -> (talloc: Self)
        requires
            self.wf(),
            has_bins(self.words().dom(), dest as int),
            may_use(self.words().dom(), dest as int, self.heap().arena),
        ensures
            talloc.wf(),
            talloc.heap() == self.heap(),
            talloc.top_free() == self.top_free(),
            talloc.bins() == dest,
            talloc.handler() == self.handler(),
            frame(self.words(), talloc.words(), dest as int, self.heap().chunks),
            forall|ptr: int, layout: Layout| #[trigger]
                self.heap().allocated(ptr, layout) ==> same_allocation(self, talloc, ptr, layout),
    {
        let mut talloc = self;
        let ghost llists = self.llists as int;
        let ghost m0 = self.memory.words();
        let ghost lists = self.lists@;
        proof {
            reveal(usable);
            self.lemma_laid_out();
            self.lemma_clear_of(dest as int);
            reveal(Talloc::recorded);
            assert forall|k: int| 0 <= k < 128 implies #[trigger] m0.dom().contains(llists + 8 * k) by {}
            assert forall|k: int| 0 <= k < 128 implies #[trigger] m0.dom().contains(dest + 8 * k) by {}
        }
        copy_words(&mut talloc.memory, talloc.llists, dest, BIN_COUNT);
        proof {
            self.lemma_copied_bins(talloc.memory.words(), dest as int);
        }
        let mut g: u64 = 0;
        while g < BIN_COUNT
            invariant
                g <= 128,
                self.wf(),
                self.lists@ == lists,
                self.llists == llists,
                self.memory.words() == m0,
                talloc == (Talloc { memory: talloc.memory, ..self }),
                has_bins(m0.dom(), dest as int),
                self.alloc_base < self.alloc_acme ==> self.alloc_acme <= dest || dest + 1024
                    <= self.alloc_base,
                redirected(talloc.memory.words(), llists, dest as int, lists, g as int),
                same_sizes(m0, talloc.memory.words(), self.chunks@),
                frame(m0, talloc.memory.words(), dest as int, self.chunks@),
            decreases 128 - g,
        {
            let ghost m = talloc.memory.words();
            assert(m0.dom().contains(dest + 8 * g));
            let node_ptr: u64 = talloc.memory.read(dest + 8 * g);
            assert(m[dest + 8 * g] == entry(lists[g as int], 0));
            if node_ptr != 0 {
                proof {
                    self.lemma_redirect(m0, m, dest as int, g as int);
                }
                talloc.memory.write(node_ptr + 8, dest + 8 * g);
            } else {
                proof {
                    self.lemma_no_first(m, dest as int, g as int);
                }
            }
            g = g + 1;
        }
        talloc.llists = dest;
        proof {
            Self::lemma_moved(self, talloc, dest as int);
            self.lemma_payload_kept(talloc, dest as int);
        }
        talloc
    }

    /// A list whose bucket word is null has no node to redirect.
    proof fn lemma_no_first(&self, m: Map<int, u64>, dest: int, g: int)
        requires
            self.recorded(),
            0 <= g < 128,
            entry(self.lists@[g], 0) == 0,
            redirected(m, self.llists as int, dest, self.lists@, g),
        ensures
            redirected(m, self.llists as int, dest, self.lists@, g + 1),
    {
        reveal(Talloc::recorded);
        let lists = self.lists@;
        let llists = self.llists as int;
        if lists[g].len() > 0 {
            let b = lists[g][0];
            assert(is_free(self.chunks@, b));
            assert(chunk_fits(self.alloc_base as int, self.alloc_acme as int, b, self.chunks@[b]));
        }
        assert forall|k: int, j: int|
            0 <= k < 128 && 0 <= j < lists[k].len() implies #[trigger] node_between(
            m,
            llists,
            dest,
            lists,
            g + 1,
            k,
            j,
        ) by {
            assert(node_between(m, llists, dest, lists, g, k, j));
        }
    }

    /// What moving leaves alone.
    proof fn lemma_payload_kept(&self, after: Self, dest: int)
        requires
            self.recorded(),
            after.heap() == self.heap(),
            self.alloc_base < self.alloc_acme ==> self.alloc_acme <= dest || dest + 1024
                <= self.alloc_base,
            frame(self.words(), after.words(), dest, self.chunks@),
        ensures
            forall|ptr: int, layout: Layout| #[trigger]
                self.heap().allocated(ptr, layout) ==> same_allocation(*self, after, ptr, layout),
    {
        self.lemma_laid_out();
        assert forall|ptr: int, layout: Layout| #[trigger]
            self.heap().allocated(ptr, layout) implies same_allocation(*self, after, ptr, layout) by {
            self.lemma_locate(ptr, layout);
            let b = self.heap().chunk_of(ptr);
            lemma_not_in_free(self.chunks@, b);
            assert forall|a: int|
                ptr <= a < ptr + layout.size() implies #[trigger] after.words()[a]
                == self.words()[a] by {
                assert(!in_free(self.chunks@, a));
            }
        }
    }
}

} // verus!
