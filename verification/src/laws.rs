//! What holds of the allocator as a whole.

use crate::bucket::{bucket, lemma_bucket_monotonic, lemma_bucket_range};
use crate::layout::Layout;
use crate::malloc::{lemma_alloc_ptr, lemma_room};
use crate::memory::Memory;
use crate::model::{
    alloc_ptr, bucket_of, chunk_fits, ends_free, followed, in_free, is_free, is_multiple,
    lemma_chunk_of, lemma_list_position, lone, required, required_acme, reserve_from, reserve_to,
    sufficient, use_fits, Chunk, Heap, Use,
};
use crate::oom::{served, served_through, AllocError, GiveUp};
use crate::span::{address, lemma_inward_within, lemma_part, lemma_signed, Span};
use crate::talloc::{fills, lemma_in_arena, may_use, usable, Talloc};
use crate::word::lemma_round_up;
use vstd::arithmetic::div_mod::lemma_div_is_ordered;
use vstd::arithmetic::mul::lemma_mul_inequality;
use vstd::prelude::*;

verus! {

/// Every chunk has a bucket, and a larger chunk has none below that of a smaller.
pub proof fn law_buckets(small: int, large: int)
    requires
        24 <= small <= large <= u64::MAX,
    ensures
        0 <= bucket(small) <= bucket(large) < 128,
{
    lemma_bucket_range(small);
    lemma_bucket_range(large);
    lemma_bucket_monotonic(small, large);
}

impl<M: Memory, H> Talloc<M, H> {
    /// There is a chunk for a request exactly if some free chunk has room for it: where
    /// the search starts, no chunk with room is left out.
    pub proof fn law_fit(&self, layout: Layout)
        requires
            self.wf(),
            layout.valid(),
        ensures
            self.heap().fit(layout) is Some <==> exists|b: int| #[trigger]
                is_free(self.heap().chunks, b) && self.heap().has_room(b, layout),
            self.heap().fit(layout) matches Some(b) ==> is_free(self.heap().chunks, b)
                && self.heap().has_room(b, layout),
    {
        reveal(Talloc::recorded);
        let heap = self.heap();
        lemma_bucket_range(required(layout.size() as int));
        if heap.fit(layout) is Some {
            let (g, j) = choose|g: int, j: int| heap.is_first_fit(layout, g, j);
            assert(is_free(heap.chunks, heap.lists[g][j]));
        }
        if exists|b: int| #[trigger] is_free(heap.chunks, b) && heap.has_room(b, layout) {
            let b = choose|b: int| #[trigger] is_free(heap.chunks, b) && heap.has_room(b, layout);
            assert(chunk_fits(heap.base, heap.acme, b, heap.chunks[b]));
            let j = lemma_list_position(heap.chunks, heap.lists, b);
            lemma_bucket_monotonic(required(layout.size() as int), heap.chunks[b].acme - b);
            heap.lemma_some_first(layout, bucket_of(heap.chunks, b), j);
        }
    }

    /// No chunk in a lower bucket, nor any before it in its own bucket, has room for
    /// the request that a chunk is used for.
    pub proof fn law_best_bucket(&self, layout: Layout, b: int, g: int, j: int)
        requires
            self.wf(),
            layout.valid(),
            self.heap().fit(layout) == Some(b),
            0 <= g < 128,
            0 <= j < self.heap().lists[g].len(),
            self.heap().has_room(self.heap().lists[g][j], layout),
        ensures
            bucket_of(self.heap().chunks, b) <= g,
            bucket_of(self.heap().chunks, b) == g ==> self.heap().lists[g].index_of(b) <= j,
    {
        reveal(Talloc::recorded);
        let heap = self.heap();
        lemma_bucket_range(required(layout.size() as int));
        let (h, i) = choose|h: int, i: int| heap.is_first_fit(layout, h, i);
        let c = heap.lists[g][j];
        assert(is_free(heap.chunks, heap.lists[h][i]));
        assert(is_free(heap.chunks, c));
        assert(chunk_fits(heap.base, heap.acme, c, heap.chunks[c]));
        lemma_bucket_monotonic(required(layout.size() as int), heap.chunks[c].acme - c);
        let k = lemma_list_position(heap.chunks, heap.lists, b);
        assert(heap.lists[h].no_duplicates());
        assert(k == i);
    }

    /// A live allocation is aligned as was asked, is not at the null address, and lies
    /// in the heap, which lies in the arena.
    pub proof fn law_placed(&self, ptr: int, layout: Layout)
        requires
            self.wf(),
            self.heap().allocated(ptr, layout),
        ensures
            layout.valid(),
            0 < layout.size(),
            0 < ptr,
            ptr % (layout.align() as int) == 0,
            ptr % 8 == 0,
            self.heap().base < ptr,
            ptr + layout.size() <= self.heap().acme,
            self.heap().arena matches Span::Sized { base, acme } && address(base) <= self.heap().base
                && self.heap().acme <= address(acme),
    {
        self.lemma_laid_out();
        self.lemma_locate(ptr, layout);
        reveal(is_multiple);
        reveal(usable);
        reveal(fills);
    }

    /// Live allocations do not overlap, and at an address there is no more than one.
    pub proof fn law_apart(&self, ptr: int, layout: Layout, other: int, held: Layout)
        requires
            self.wf(),
            self.heap().allocated(ptr, layout),
            self.heap().allocated(other, held),
        ensures
            ptr == other ==> layout == held,
            ptr != other ==> ptr + layout.size() <= other || other + held.size() <= ptr,
    {
        self.lemma_laid_out();
        self.lemma_locate(ptr, layout);
        self.lemma_locate(other, held);
    }

    /// No allocation takes a word of the buckets.
    pub proof fn law_clear_of_bins(&self, ptr: int, layout: Layout)
        requires
            self.wf(),
            self.heap().allocated(ptr, layout),
        ensures
            ptr + layout.size() <= self.bins() || self.bins() + 1024 <= ptr,
    {
        self.lemma_laid_out();
        self.lemma_locate(ptr, layout);
    }

    /// The chunk that holds an address, from a chunk at or below it on.
    proof fn lemma_holder(&self, b: int, a: int) -> (c: int)
        requires
            self.wf(),
            self.chunks@.dom().contains(b),
            b <= a < self.alloc_acme,
        ensures
            self.chunks@.dom().contains(c),
            c <= a < self.chunks@[c].acme,
        decreases a - b,
    {
        self.lemma_laid_out();
        assert(chunk_fits(self.alloc_base as int, self.alloc_acme as int, b, self.chunks@[b]));
        assert(followed(self.chunks@, self.alloc_acme as int, b));
        if a < self.chunks@[b].acme {
            b
        } else {
            self.lemma_holder(self.chunks@[b].acme, a)
        }
    }

    /// Every address of the heap lies in exactly one chunk.
    pub proof fn law_tiled(&self, a: int)
        requires
            self.wf(),
            self.heap().base <= a < self.heap().acme,
        ensures
            exists|b: int| #[trigger]
                self.heap().chunks.dom().contains(b) && b <= a < self.heap().chunks[b].acme,
            forall|b: int, c: int|
                #![trigger self.heap().chunks.dom().contains(b), self.heap().chunks.dom().contains(c)]
                self.heap().chunks.dom().contains(b) && b <= a < self.heap().chunks[b].acme
                    && self.heap().chunks.dom().contains(c) && c <= a < self.heap().chunks[c].acme ==> b
                    == c,
    {
        self.lemma_laid_out();
        let b = self.lemma_holder(self.alloc_base as int, a);
        assert(self.heap().chunks.dom().contains(b));
    }

    /// Every free chunk stands in the list of its bucket, once, and nothing else stands
    /// in the lists.
    pub proof fn law_listed(&self)
        requires
            self.wf(),
        ensures
            self.heap().lists.len() == 128,
            forall|b: int| #[trigger]
                is_free(self.heap().chunks, b) ==> self.heap().lists[bucket_of(
                    self.heap().chunks,
                    b,
                )].contains(b),
            forall|g: int, j: int|
                0 <= g < 128 && 0 <= j < self.heap().lists[g].len() ==> is_free(
                    self.heap().chunks,
                    #[trigger] self.heap().lists[g][j],
                ) && bucket_of(self.heap().chunks, self.heap().lists[g][j]) == g,
            forall|g: int| 0 <= g < 128 ==> (#[trigger] self.heap().lists[g]).no_duplicates(),
    {
        reveal(Talloc::recorded);
        let heap = self.heap();
        assert forall|b: int| #[trigger] is_free(heap.chunks, b) implies heap.lists[bucket_of(
            heap.chunks,
            b,
        )].contains(b) by {
            let j = lemma_list_position(heap.chunks, heap.lists, b);
            assert(heap.lists[bucket_of(heap.chunks, b)][j] == b);
        }
    }

    /// The span that is reported as allocatable is the heap; it lies in the arena, and
    /// what is reported as allocated lies in it.
    pub proof fn law_spans(&self)
        requires
            self.wf(),
        ensures
            match self.heap().allocatable_span() {
                Span::Empty => self.heap().base >= self.heap().acme,
                Span::Sized { base, acme } => address(base) == self.heap().base && address(acme)
                    == self.heap().acme,
            },
            self.heap().arena.covers(self.heap().allocatable_span()),
            self.heap().allocatable_span().covers(self.heap().allocated_span()),
    {
        let heap = self.heap();
        self.lemma_laid_out();
        self.lemma_span_covered();
        self.law_allocated_span();
        if self.alloc_base < self.alloc_acme {
            self.lemma_allocated_bounds();
            self.lemma_allocated_in_arena();
            lemma_in_arena(
                self.memory.words().dom(),
                self.llists as int,
                self.arena,
                self.alloc_base as int,
                self.alloc_acme as int,
            );
            lemma_part(self.arena, heap.base, heap.acme);
            lemma_part(self.arena, heap.allocated_base(), heap.allocated_acme());
            lemma_signed(
                self.arena.inward()->base,
                self.arena.inward()->acme,
                heap.allocated_base(),
            );
        }
    }

    /// Where there is a heap, its top is marked as free exactly if a free chunk ends
    /// there.
    pub proof fn law_top_free(&self)
        requires
            self.wf(),
            self.heap().base < self.heap().acme,
        ensures
            self.top_free() == ends_free(self.heap().chunks, self.heap().acme),
    {
    }

    /// Free chunks do not border on one another.
    pub proof fn law_merged(&self, b: int)
        requires
            self.wf(),
            is_free(self.heap().chunks, b),
        ensures
            !is_free(self.heap().chunks, self.heap().chunks[b].acme),
    {
        assert(lone(self.chunks@, b));
    }

    /// When nothing is allocated, the whole heap is one free chunk.
    pub proof fn law_all_free(&self)
        requires
            self.wf(),
            self.heap().base < self.heap().acme,
            forall|ptr: int, layout: Layout| !#[trigger] self.heap().allocated(ptr, layout),
        ensures
            self.heap().chunks == Map::<int, Chunk>::empty().insert(
                self.heap().base,
                Chunk { acme: self.heap().acme, used: None },
            ),
    {
        let chunks = self.chunks@;
        let lo = self.alloc_base as int;
        let hi = self.alloc_acme as int;
        self.lemma_laid_out();
        assert forall|b: int| #[trigger] chunks.dom().contains(b) implies chunks[b].used is None by {
            if chunks[b].used is Some {
                let u = chunks[b].used->0;
                assert(u == (Use { ptr: u.ptr, layout: u.layout }));
                assert(self.heap().allocated(u.ptr, u.layout));
            }
        }
        assert(chunks.dom().contains(lo));
        assert(followed(chunks, hi, lo));
        assert(is_free(chunks, lo));
        assert(lone(chunks, lo));
        assert(chunks[lo].acme == hi);
        assert forall|b: int| #[trigger] chunks.dom().contains(b) implies b == lo by {
            assert(chunk_fits(lo, hi, b, chunks[b]));
        }
        assert(chunks =~= Map::<int, Chunk>::empty().insert(lo, Chunk { acme: hi, used: None }));
    }

    /// Meeting a request adds the one allocation, and nothing else.
    pub proof fn law_malloc_adds(before: Self, after: Self, layout: Layout)
        requires
            before.wf(),
            after.wf(),
            layout.valid(),
            layout.size() > 0,
            before.heap().fit(layout) matches Some(b) && after.heap() == before.heap().allocate(
                b,
                layout,
            ),
        ensures
            forall|ptr: int, held: Layout| #[trigger]
                after.heap().allocated(ptr, held) <==> before.heap().allocated(ptr, held) || (ptr
                    == alloc_ptr(before.heap().fit(layout)->0, layout) && held == layout),
    {
        before.law_fit(layout);
        let c = before.heap().fit(layout)->0;
        let (t, end) = before.lemma_allocate(after, layout, c);
        let c0 = before.chunks@;
        let c1 = after.chunks@;
        let e = c0[c].acme;
        before.lemma_laid_out();
        assert forall|ptr: int, held: Layout| #[trigger]
            after.heap().allocated(ptr, held) implies before.heap().allocated(ptr, held) || (ptr
            == alloc_ptr(c, layout) && held == layout) by {
            let b = choose|b: int| #[trigger]
                c1.dom().contains(b) && c1[b].used == Some(Use { ptr, layout: held });
            if b != t {
                assert(c0.dom().contains(b));
            }
        }
        assert forall|ptr: int, held: Layout|
            before.heap().allocated(ptr, held) || (ptr == alloc_ptr(c, layout) && held
                == layout) implies #[trigger] after.heap().allocated(ptr, held) by {
            if before.heap().allocated(ptr, held) {
                before.lemma_locate(ptr, held);
                let b = before.heap().chunk_of(ptr);
                assert(chunk_fits(before.alloc_base as int, before.alloc_acme as int, c, c0[c]));
                assert(c1.dom().contains(b));
            } else {
                assert(c1.dom().contains(t));
            }
        }
    }

    /// What a free chunk becomes when it is used for a request.
    proof fn lemma_allocate(&self, after: Self, layout: Layout, c: int) -> (r: (int, int))
        requires
            self.wf(),
            layout.valid(),
            layout.size() > 0,
            is_free(self.chunks@, c),
            self.heap().has_room(c, layout),
            after.heap() == self.heap().allocate(c, layout),
        ensures
            ({
                let e = self.chunks@[c].acme;
                let (t, end) = r;
                let rest = self.chunks@.remove(c);
                let below = if t == c {
                    rest
                } else {
                    rest.insert(c, Chunk { acme: t, used: None })
                };
                let above = if end == e {
                    below
                } else {
                    below.insert(end, Chunk { acme: e, used: None })
                };
                &&& c <= t
                &&& t + 24 <= end <= e
                &&& after.chunks@ == above.insert(
                    t,
                    Chunk { acme: end, used: Some(Use { ptr: alloc_ptr(c, layout), layout }) },
                )
            }),
    {
        let e = self.chunks@[c].acme;
        let t = reserve_from(c, e, alloc_ptr(c, layout));
        let end = reserve_to(
            required_acme(t, alloc_ptr(c, layout), layout.size() as int),
            e,
        );
        self.lemma_laid_out();
        assert(chunk_fits(self.alloc_base as int, self.alloc_acme as int, c, self.chunks@[c]));
        lemma_room(c, e, layout);
        assert(after.chunks@ == after.heap().chunks);
        (t, end)
    }

    /// Freeing what a request was met with puts the chunks back as they were.
    pub proof fn law_free_undoes(before: Self, after: Self, layout: Layout)
        requires
            before.wf(),
            after.wf(),
            layout.valid(),
            layout.size() > 0,
            before.heap().fit(layout) matches Some(b) && after.heap() == before.heap().allocate(
                b,
                layout,
            ),
        ensures
            after.heap().freed(alloc_ptr(before.heap().fit(layout)->0, layout)).chunks
                == before.heap().chunks,
    {
        before.law_fit(layout);
        let c = before.heap().fit(layout)->0;
        let (t, end) = before.lemma_allocate(after, layout, c);
        let ptr = alloc_ptr(c, layout);
        let c0 = before.chunks@;
        let c1 = after.chunks@;
        let e = c0[c].acme;
        let heap = after.heap();
        before.lemma_laid_out();
        after.lemma_laid_out();
        assert(chunk_fits(before.alloc_base as int, before.alloc_acme as int, c, c0[c]));
        assert(c1.dom().contains(t));
        assert(heap.chunks[t].used->0.ptr == ptr);
        lemma_chunk_of(heap, t);
        assert(heap.chunk_of(ptr) == t);
        assert(lone(c0, c));
        if end < e {
            assert(is_free(c1, end));
        } else {
            assert(!is_free(c1, end)) by {
                if is_free(c1, e) {
                    assert(c0.dom().contains(e));
                }
            }
        }
        assert(heap.free_up_to(end) == e);
        if c < t {
            assert(c1.dom().contains(c) && c1[c].used is None && c1[c].acme == t);
            assert(ends_free(c1, t));
            let p = heap.free_below(t);
            assert(c1.dom().contains(p) && c1[p].used is None && c1[p].acme == t);
            assert(chunk_fits(before.alloc_base as int, before.alloc_acme as int, p, c1[p]));
            assert(p == c);
        } else {
            assert(!ends_free(c1, t)) by {
                if ends_free(c1, c) {
                    let p = choose|p: int| #[trigger]
                        c1.dom().contains(p) && c1[p].used is None && c1[p].acme == c;
                    assert(chunk_fits(before.alloc_base as int, before.alloc_acme as int, p, c1[p]));
                    assert(c0.dom().contains(p));
                    assert(is_free(c0, p));
                    assert(lone(c0, p));
                }
            }
        }
        assert(heap.freed(ptr).chunks =~= c0);
    }

    /// The span that is reported as allocated holds every allocation, and starts and
    /// ends with a reserved chunk; it is empty exactly if nothing is allocated.
    pub proof fn law_allocated_span(&self)
        requires
            self.wf(),
        ensures
            forall|ptr: int, layout: Layout| #[trigger]
                self.heap().allocated(ptr, layout) ==> self.heap().allocated_base() < ptr && ptr
                    + layout.size() <= self.heap().allocated_acme(),
            match self.heap().allocated_span() {
                Span::Empty => forall|ptr: int, layout: Layout|
                    !#[trigger] self.heap().allocated(ptr, layout),
                Span::Sized { base, acme } => {
                    &&& address(base) == self.heap().allocated_base()
                    &&& address(acme) == self.heap().allocated_acme()
                    &&& self.heap().chunks.dom().contains(address(base))
                    &&& self.heap().chunks[address(base)].used is Some
                    &&& exists|b: int| #[trigger]
                        self.heap().chunks.dom().contains(b) && self.heap().chunks[b].used is Some
                            && self.heap().chunks[b].acme == address(acme)
                },
            },
    {
        let chunks = self.chunks@;
        let lo = self.alloc_base as int;
        let hi = self.alloc_acme as int;
        let heap = self.heap();
        self.lemma_laid_out();
        assert forall|ptr: int, layout: Layout| #[trigger]
            heap.allocated(ptr, layout) implies heap.allocated_base() < ptr && ptr
            + layout.size() <= heap.allocated_acme() && heap.allocated_base()
            < heap.allocated_acme() by {
            self.lemma_locate(ptr, layout);
            self.lemma_allocated_within(heap.chunk_of(ptr));
        }
        if lo < hi {
            self.lemma_allocated_bounds();
            self.lemma_allocated_in_arena();
            if heap.allocated_base() < heap.allocated_acme() {
                self.lemma_ends_reserved();
            }
        } else {
            self.lemma_empty_span();
        }
    }

    /// Without a heap there is nothing to allocate from.
    proof fn lemma_empty_span(&self)
        requires
            self.wf(),
            self.alloc_base >= self.alloc_acme,
        ensures
            self.heap().allocated_span() == Span::Empty,
    {
        let chunks = self.chunks@;
        let lo = self.alloc_base as int;
        let hi = self.alloc_acme as int;
        self.lemma_laid_out();
        assert(!is_free(chunks, lo));
        assert(!ends_free(chunks, hi)) by {
            if ends_free(chunks, hi) {
                let b = choose|b: int| #[trigger]
                    chunks.dom().contains(b) && chunks[b].used is None && chunks[b].acme == hi;
                assert(chunk_fits(lo, hi, b, chunks[b]));
            }
        }
    }

    /// What lies between the free chunks at the bottom and at the top starts and ends
    /// with a reserved chunk.
    proof fn lemma_ends_reserved(&self)
        requires
            self.wf(),
            self.heap().base < self.heap().acme,
            self.heap().allocated_base() < self.heap().allocated_acme(),
        ensures
            self.chunks@.dom().contains(self.heap().allocated_base()),
            self.chunks@[self.heap().allocated_base()].used is Some,
            exists|b: int| #[trigger]
                self.chunks@.dom().contains(b) && self.chunks@[b].used is Some && self.chunks@[b].acme
                    == self.heap().allocated_acme(),
    {
        let chunks = self.chunks@;
        let lo = self.alloc_base as int;
        let hi = self.alloc_acme as int;
        let base = self.heap().allocated_base();
        let acme = self.heap().allocated_acme();
        self.lemma_laid_out();
        self.lemma_allocated_bounds();
        assert(chunks.dom().contains(lo));
        assert(followed(chunks, hi, lo));
        if is_free(chunks, lo) {
            assert(lone(chunks, lo));
        }
        let b = self.lemma_holder(lo, acme - 1);
        assert(chunk_fits(lo, hi, b, chunks[b]));
        assert(followed(chunks, hi, b));
        if ends_free(chunks, hi) {
            assert(chunks.dom().contains(acme) && chunks[acme].used is None && chunks[acme].acme == hi);
            assert(chunks[b].acme == acme);
            if is_free(chunks, b) {
                assert(lone(chunks, b));
                assert(is_free(chunks, acme));
            }
        } else {
            assert(chunks[b].acme == hi);
        }
    }
}

impl Heap {
    /// Cutting the arena to what is allocated.
    proof fn lemma_cut_to_allocated(self, span: Span)
        requires
            self.base + 24 <= self.acme,
            self.base <= self.allocated_base(),
            self.allocated_base() < self.allocated_acme(),
            self.allocated_acme() <= self.acme,
            span.inward() matches Span::Sized { base, acme } && acme - base >= 24 && address(base)
                == self.allocated_base() && address(acme) == self.allocated_acme(),
        ensures
            self.narrowed(span).base == self.allocated_base(),
            self.narrowed(span).acme == self.allocated_acme(),
    {
        let mid = (Heap { arena: span, ..self }).cut_above(self.allocated_acme());
        assert(mid.acme == self.allocated_acme());
        assert(mid.base == self.base);
        if self.base < self.allocated_base() {
            assert(mid.chunks[self.base] == self.chunks[self.base]);
        }
    }

    /// If some position of the lists holds a chunk with room, some position is the first.
    proof fn lemma_some_first(self, layout: Layout, g: int, j: int)
        requires
            bucket(required(layout.size() as int)) <= g < 128,
            0 <= bucket(required(layout.size() as int)),
            0 <= j < self.lists[g].len(),
            self.has_room(self.lists[g][j], layout),
        ensures
            self.fit(layout) is Some,
        decreases g, j,
    {
        let g0 = bucket(required(layout.size() as int));
        if exists|h: int, i: int|
            g0 <= h <= g && 0 <= i < self.lists[h].len() && (h < g || i < j) && self.has_room(
                #[trigger] self.lists[h][i],
                layout,
            ) {
            let (h, i) = choose|h: int, i: int|
                g0 <= h <= g && 0 <= i < self.lists[h].len() && (h < g || i < j) && self.has_room(
                    #[trigger] self.lists[h][i],
                    layout,
                );
            self.lemma_some_first(layout, h, i);
        } else {
            assert(self.is_first_fit(layout, g, j));
        }
    }
}

/// An allocator that was just given an arena has no allocations.
pub proof fn law_initial(arena: Span)
    ensures
        forall|ptr: int, layout: Layout| !#[trigger] Heap::initial(arena).allocated(ptr, layout),
{
}

/// An allocator that was given no arena has no room for any request.
pub proof fn law_no_arena(layout: Layout)
    requires
        layout.valid(),
    ensures
        Heap::initial(Span::Empty).fit(layout) is None,
{
    let heap = Heap::initial(Span::Empty);
    lemma_bucket_range(required(layout.size() as int));
    assert forall|g: int, j: int| !heap.is_first_fit(layout, g, j) by {
        if heap.is_first_fit(layout, g, j) {
            assert(heap.lists[g].len() == 0);
        }
    }
}

/// In a free chunk that reaches lower, an allocation stands no higher.
proof fn lemma_lower_alloc_ptr(low: int, b: int, layout: Layout)
    requires
        layout.valid(),
        low <= b,
    ensures
        alloc_ptr(low, layout) <= alloc_ptr(b, layout),
{
    reveal(alloc_ptr);
    let n = layout.align() as int;
    lemma_round_up(low + 8, n);
    lemma_round_up(b + 8, n);
    lemma_div_is_ordered(low + 8 + n - 1, b + 8 + n - 1, n);
    lemma_mul_inequality((low + 8 + n - 1) / n, (b + 8 + n - 1) / n, n);
}

impl<M: Memory, H> Talloc<M, H> {
    /// With an arena that was extended, there is room for every request for which
    /// there was room before.
    pub proof fn law_extend(before: Self, after: Self, arena: Span, layout: Layout)
        requires
            before.wf(),
            after.wf(),
            arena.covers(before.heap().arena),
            may_use(before.words().dom(), before.bins(), arena),
            after.heap() == before.heap().widened(arena),
            layout.valid(),
            before.heap().fit(layout) is Some,
        ensures
            after.heap().fit(layout) is Some,
    {
        before.law_fit(layout);
        after.law_fit(layout);
        let b = before.heap().fit(layout)->0;
        let c0 = before.chunks@;
        let lo = before.alloc_base as int;
        let hi = before.alloc_acme as int;
        before.lemma_laid_out();
        assert(chunk_fits(lo, hi, b, c0[b]));
        before.lemma_wider(arena);
        let (base, acme) = (address(arena.inward()->base), address(arena.inward()->acme));
        let mid = (Heap { arena, ..before.heap() }).raised(acme);
        let t = before.heap().free_below(hi);
        if ends_free(c0, hi) {
            assert(c0.dom().contains(t) && c0[t].used is None && c0[t].acme == hi);
            assert(chunk_fits(lo, hi, t, c0[t]));
        }
        assert(is_free(mid.chunks, b) && c0[b].acme <= mid.chunks[b].acme);
        let low = if b == lo {
            base
        } else {
            b
        };
        assert(is_free(after.heap().chunks, low) && after.heap().chunks[low].acme
            == mid.chunks[b].acme) by {
            assert(after.heap() == mid.lowered(base));
            if b != lo {
                assert(lo <= b);
            }
        }
        lemma_lower_alloc_ptr(low, b, layout);
        assert(after.heap().has_room(low, layout));
    }

    /// The arena can always be cut to the span that is allocated; the heap is then that
    /// span.
    pub proof fn law_truncate(&self)
        requires
            self.wf(),
        ensures
            self.heap().arena.covers(self.heap().allocated_span()),
            self.heap().allocated_span().inward() == self.heap().allocated_span(),
            self.heap().allocated_span() is Sized ==> {
                let heap = self.heap().narrowed(self.heap().allocated_span());
                &&& heap.base == self.heap().allocated_base()
                &&& heap.acme == self.heap().allocated_acme()
            },
    {
        let heap = self.heap();
        self.law_allocated_span();
        self.lemma_laid_out();
        if self.alloc_base < self.alloc_acme {
            self.lemma_allocated_in_arena();
        } else {
            self.lemma_empty_span();
        }
        if heap.allocated_span() is Sized {
            let b = heap.allocated_base();
            self.lemma_laid_out();
            self.lemma_allocated_within(b);
            self.lemma_allocated_bounds();
            heap.lemma_cut_to_allocated(heap.allocated_span());
        }
    }

    /// What is allocated lies in the arena, between word boundaries.
    proof fn lemma_allocated_in_arena(&self)
        requires
            self.wf(),
            self.alloc_base < self.alloc_acme,
        ensures
            self.heap().arena.covers(self.heap().allocated_span()),
            self.heap().arena.inward().covers(self.heap().allocated_span()),
            self.heap().allocated_span().inward() == self.heap().allocated_span(),
            match self.heap().allocated_span() {
                Span::Empty => self.heap().allocated_acme() <= self.heap().allocated_base(),
                Span::Sized { base, acme } => {
                    &&& address(base) == self.heap().allocated_base()
                    &&& address(acme) == self.heap().allocated_acme()
                    &&& address(base) < address(acme)
                    &&& acme - base == address(acme) - address(base)
                },
            },
    {
        self.lemma_allocated_bounds();
        self.lemma_allocated_aligned();
        lemma_in_arena(
            self.memory.words().dom(),
            self.llists as int,
            self.arena,
            self.alloc_base as int,
            self.alloc_acme as int,
        );
        lemma_part(self.arena, self.heap().allocated_base(), self.heap().allocated_acme());
    }

    /// The free chunks at the bottom and at the top end and start at word boundaries.
    proof fn lemma_allocated_aligned(&self)
        requires
            self.wf(),
            self.alloc_base < self.alloc_acme,
        ensures
            self.heap().allocated_base() % 8 == 0,
            self.heap().allocated_acme() % 8 == 0,
    {
        let chunks = self.chunks@;
        let lo = self.alloc_base as int;
        let hi = self.alloc_acme as int;
        self.lemma_laid_out();
        assert(chunk_fits(lo, hi, lo, chunks[lo]));
        if ends_free(chunks, hi) {
            let t = self.heap().free_below(hi);
            assert(chunks.dom().contains(t) && chunks[t].used is None && chunks[t].acme == hi);
            assert(chunk_fits(lo, hi, t, chunks[t]));
        }
    }

    /// Cutting the arena to what it is leaves the heap as it is.
    pub proof fn law_truncate_to_same(&self)
        requires
            self.wf(),
            self.heap().base < self.heap().acme,
        ensures
            self.heap().arena.inward().covers(self.heap().allocated_span()),
            self.heap().narrowed(self.heap().arena) == self.heap(),
    {
        self.lemma_laid_out();
        self.lemma_allocated_in_arena();
        lemma_in_arena(
            self.memory.words().dom(),
            self.llists as int,
            self.arena,
            self.alloc_base as int,
            self.alloc_acme as int,
        );
        assert(chunk_fits(
            self.alloc_base as int,
            self.alloc_acme as int,
            self.alloc_base as int,
            self.chunks@[self.alloc_base as int],
        ));
    }

    /// Cutting the arena of a heap leaves a part of that heap.
    pub proof fn law_truncate_within(before: Self, after: Self, arena: Span)
        requires
            before.wf(),
            after.wf(),
            before.heap().base < before.heap().acme,
            before.heap().arena.covers(arena),
            arena.inward().covers(before.heap().allocated_span()),
            after.heap() == before.heap().narrowed(arena),
        ensures
            before.heap().allocatable_span().covers(after.heap().allocatable_span()),
    {
        before.lemma_laid_out();
        after.lemma_laid_out();
        before.law_spans();
        after.law_spans();
        let lo = before.alloc_base as int;
        let hi = before.alloc_acme as int;
        let c0 = before.chunks@;
        assert(c0.dom().contains(lo));
        assert(chunk_fits(lo, hi, lo, c0[lo]));
        lemma_inward_within(before.arena, arena);
        lemma_in_arena(before.memory.words().dom(), before.llists as int, before.arena, lo, hi);
        if after.alloc_base < after.alloc_acme {
            before.lemma_narrowed_bounds(after, arena);
            let (b0, a0) = (before.arena.inward()->base, before.arena.inward()->acme);
            lemma_signed(b0, a0, lo);
            lemma_signed(b0, a0, hi);
            lemma_signed(b0, a0, after.alloc_base as int);
            lemma_signed(b0, a0, after.alloc_acme as int);
        }
    }

    /// Where a heap ends after its arena has been cut.
    proof fn lemma_narrowed_bounds(&self, after: Self, arena: Span)
        requires
            self.wf(),
            self.heap().base + 24 <= self.heap().acme,
            self.heap().arena.covers(arena),
            arena.inward().covers(self.heap().allocated_span()),
            after.heap() == self.heap().narrowed(arena),
            after.heap().base < after.heap().acme,
        ensures
            self.heap().base <= after.heap().base,
            after.heap().acme <= self.heap().acme,
    {
        let h = self.heap();
        let lo = self.alloc_base as int;
        let hi = self.alloc_acme as int;
        self.lemma_laid_out();
        self.lemma_allocated_bounds();
        if let Span::Sized { base, acme } = arena.inward() {
            if acme - base >= 24 {
                self.lemma_narrower(arena, base, acme);
                let cut = (Heap { arena, ..h }).cut_above(address(acme));
                let t = h.free_below(hi);
                if ends_free(h.chunks, hi) {
                    assert(h.chunks.dom().contains(t) && h.chunks[t].used is None
                        && h.chunks[t].acme == hi);
                    assert(chunk_fits(lo, hi, t, h.chunks[t]));
                }
                assert(chunk_fits(lo, hi, lo, h.chunks[lo]));
                assert(cut.acme <= hi);
                if lo < address(base) {
                    assert(lo <= cut.chunks[lo].acme);
                }
            }
        }
    }

    /// To give an allocation the size that it has changes nothing.
    pub proof fn law_grow_to_same(&self, ptr: int, layout: Layout)
        requires
            self.wf(),
            self.heap().allocated(ptr, layout),
        ensures
            self.heap().is_roomy(ptr, layout.size() as int),
            self.heap().relaid(ptr, layout, layout.size()) == self.heap(),
    {
        self.lemma_laid_out();
        self.lemma_locate(ptr, layout);
        let b = self.heap().chunk_of(ptr);
        assert(Layout::of(layout.size(), layout.align()) == layout);
        assert(self.heap().relaid(ptr, layout, layout.size()).chunks =~= self.chunks@);
    }
}

/// A chunk in which an allocation stands has room for the allocation's request, and so
/// has every chunk that covers it.
proof fn lemma_used_has_room(b: int, acme: int, u: Use, low: int, high: int)
    requires
        use_fits(b, acme, u),
        low <= b,
        acme <= high,
        low + 24 <= high,
        b % 8 == 0,
        acme % 8 == 0,
        low % 8 == 0,
        high % 8 == 0,
    ensures
        sufficient(low, high, u.layout),
{
    let n = u.layout.align() as int;
    reveal(alloc_ptr);
    reveal(is_multiple);
    lemma_round_up(low + 8, n);
    assert(u.ptr % n == 0);
    assert(alloc_ptr(low, u.layout) <= u.ptr);
    lemma_room_for(b, acme, u.ptr, u.layout.size() as int);
}

/// A chunk with a tag below `size` bytes is as large as a request for them needs, or
/// less than the smallest.
proof fn lemma_room_for(b: int, acme: int, ptr: int, size: int)
    requires
        b % 8 == 0,
        acme % 8 == 0,
        b + 8 <= ptr,
        ptr + size <= acme,
        0 < size,
    ensures
        required(size) <= acme - b || required(size) == 24,
{
}

impl<M: Memory, H> Talloc<M, H> {
    /// When an allocation has been freed, there is room for its request.
    pub proof fn law_freed_fits(before: Self, after: Self, ptr: int, layout: Layout)
        requires
            before.wf(),
            after.wf(),
            before.heap().allocated(ptr, layout),
            after.heap() == before.heap().freed(ptr),
        ensures
            after.heap().fit(layout) is Some,
    {
        before.law_placed(ptr, layout);
        after.law_fit(layout);
        let heap = before.heap();
        let c0 = before.chunks@;
        let lo = before.alloc_base as int;
        let hi = before.alloc_acme as int;
        before.lemma_laid_out();
        before.lemma_locate(ptr, layout);
        let b = heap.chunk_of(ptr);
        let e = c0[b].acme;
        let high = heap.free_up_to(e);
        if is_free(c0, e) {
            assert(chunk_fits(lo, hi, e, c0[e]));
        }
        let low = if ends_free(c0, b) {
            heap.free_below(b)
        } else {
            b
        };
        if ends_free(c0, b) {
            assert(c0.dom().contains(low) && c0[low].used is None && c0[low].acme == b);
            assert(chunk_fits(lo, hi, low, c0[low]));
        }
        assert(is_free(after.heap().chunks, low) && after.heap().chunks[low].acme == high);
        lemma_used_has_room(b, e, Use { ptr, layout }, low, high);
    }

    /// When an allocation has been freed, all of its chunk is free.
    pub proof fn law_freed_region(before: Self, after: Self, ptr: int, layout: Layout, a: int)
        requires
            before.wf(),
            before.heap().allocated(ptr, layout),
            after.heap() == before.heap().freed(ptr),
            ({
                let b = before.heap().chunk_of(ptr);
                b <= a < before.heap().chunks[b].acme
            }),
        ensures
            in_free(after.heap().chunks, a),
    {
        let heap = before.heap();
        let c0 = before.chunks@;
        let lo = before.alloc_base as int;
        let hi = before.alloc_acme as int;
        before.lemma_laid_out();
        before.lemma_locate(ptr, layout);
        let b = heap.chunk_of(ptr);
        let e = c0[b].acme;
        if is_free(c0, e) {
            assert(chunk_fits(lo, hi, e, c0[e]));
        }
        let low = if ends_free(c0, b) {
            heap.free_below(b)
        } else {
            b
        };
        if ends_free(c0, b) {
            assert(c0.dom().contains(low) && c0[low].used is None && c0[low].acme == b);
            assert(chunk_fits(lo, hi, low, c0[low]));
        }
        assert(after.heap().chunks.dom().contains(low));
    }

    /// An allocation that has been cut can be given its size back where it is.
    pub proof fn law_grow_undoes_shrink(
        before: Self,
        after: Self,
        ptr: int,
        layout: Layout,
        new_size: u64,
    )
        requires
            before.wf(),
            after.wf(),
            before.heap().allocated(ptr, layout),
            0 < new_size <= layout.size(),
            after.heap() == before.heap().shrunk(ptr, layout, new_size),
        ensures
            after.heap().is_roomy(ptr, layout.size() as int) || after.heap().is_extensible(
                ptr,
                layout.size() as int,
            ),
    {
        let heap = before.heap();
        let c0 = before.chunks@;
        let lo = before.alloc_base as int;
        let hi = before.alloc_acme as int;
        before.lemma_laid_out();
        after.lemma_laid_out();
        before.lemma_locate(ptr, layout);
        let b = heap.chunk_of(ptr);
        let e = c0[b].acme;
        if is_free(c0, e) {
            assert(chunk_fits(lo, hi, e, c0[e]));
        }
        let c1 = after.heap().chunks;
        assert(c1.dom().contains(b) && c1[b].used == Some(Heap::resized(ptr, layout, new_size)));
        lemma_chunk_of(after.heap(), b);
        assert(after.heap().chunk_of(ptr) == b);
        lemma_needed(b, e, ptr, layout.size() as int);
    }
}

/// A chunk ends where an allocation in it needs it to, or above.
proof fn lemma_needed(b: int, acme: int, ptr: int, size: int)
    requires
        b + 24 <= acme,
        acme % 8 == 0,
        ptr + size <= acme,
    ensures
        required_acme(b, ptr, size) <= acme,
{
}

/// A request gets the smallest chunk, in whole words, that holds its tag and its bytes
/// and has the least size of a chunk.
pub proof fn law_least_chunk(size: int, chunk_size: int)
    requires
        0 <= size,
        chunk_size % 8 == 0,
        24 <= chunk_size,
        size + 8 <= chunk_size,
    ensures
        required(size) % 8 == 0,
        24 <= required(size),
        size + 8 <= required(size),
        required(size) <= chunk_size,
{
}

/// The end of a chunk at `b` with the tag right below the allocation.
proof fn lemma_tight(b: int, size: int)
    requires
        b % 8 == 0,
        size > 0,
    ensures
        required_acme(b, b + 8, size) == b + required(size),
        required(size) % 8 == 0,
        required(size) >= 24,
{
}

/// A request for no more than word alignment gets a chunk that starts with the tag
/// right below the allocation. The chunk is no larger than what the request needs,
/// but for what is too little for a chunk.
pub proof fn law_overhead(b: int, e: int, layout: Layout)
    requires
        layout.valid(),
        layout.size() > 0,
        layout.align() <= 8,
        0 < b,
        b % 8 == 0,
        e % 8 == 0,
        b + required(layout.size() as int) <= e <= u64::MAX,
    ensures
        alloc_ptr(b, layout) == b + 8,
        reserve_from(b, e, b + 8) == b,
        required_acme(b, b + 8, layout.size() as int) == b + required(layout.size() as int),
        ({
            let end = reserve_to(b + required(layout.size() as int), e);
            b + required(layout.size() as int) <= end < b + required(layout.size() as int) + 24
        }),
{
    lemma_tight(b, layout.size() as int);
    lemma_alloc_ptr(b, layout);
}

impl<M: Memory> Talloc<M, GiveUp> {
    /// With the handler that gives up, a request is met exactly if some free chunk has
    /// room for it, and a request that is not met changes nothing.
    pub proof fn law_give_up(
        before: Self,
        layout: Layout,
        after: Self,
        answer: Result<u64, AllocError>,
    )
        requires
            before.wf(),
            layout.valid(),
            served(before, layout, after, answer),
        ensures
            answer is Ok <==> exists|b: int| #[trigger]
                is_free(before.heap().chunks, b) && before.heap().has_room(b, layout),
            answer is Err ==> answer == Err::<u64, AllocError>(AllocError) && after == before,
    {
        let tried = choose|tried: Seq<Self>|
            tried.len() > 0 && tried[0] == before && #[trigger] served_through(
                tried,
                layout,
                after,
                answer,
            );
        if tried.len() > 1 {
            assert(tried[0].heap().fit(layout) is None);
        }
        before.law_fit(layout);
    }
}

impl Heap {
    /// Whether the heap comes back when its arena is extended to `arena` and then cut to
    /// what it was. Where the heap does not reach the end of its arena, what lies
    /// between becomes part of a free chunk there, or a chunk if it is enough for one.
    pub open spec fn restorable(self, arena: Span) -> bool {
        match (self.arena.inward(), arena.inward()) {
            (Span::Sized { base, acme }, Span::Sized { base: new_base, acme: new_acme }) => if self.base
                < self.acme {
                &&& if ends_free(self.chunks, self.acme) {
                    self.acme == address(acme)
                } else {
                    address(acme) < self.acme + 24 || new_acme == acme
                }
                &&& if is_free(self.chunks, self.base) {
                    self.base == address(base)
                } else {
                    self.base < address(base) + 24 || new_base == base
                }
            } else {
                acme - base < 24
            },
            _ => true,
        }
    }
}

impl<M: Memory, H> Talloc<M, H> {
    /// Cutting off what was gained above leaves the heap as if only its start had been
    /// moved.
    proof fn lemma_top_put_back(&self, mid: Self, arena: Span, b1: int, a1: int, a0: int)
        requires
            self.wf(),
            mid.recorded(),
            self.alloc_base < self.alloc_acme <= a0 <= a1,
            a0 <= self.alloc_acme + 24,
            0 < b1 <= self.alloc_base,
            mid.heap() == (Heap { arena, ..self.heap() }).raised(a1).lowered(b1),
            if ends_free(self.chunks@, self.alloc_acme as int) {
                self.alloc_acme == a0
            } else {
                a0 < self.alloc_acme + 24 || a1 == a0
            },
        ensures
            ({
                let cut = (Heap { arena: self.arena, ..mid.heap() }).cut_above(a0);
                let low = self.heap().lowered(b1);
                &&& cut.arena == self.arena
                &&& cut.chunks == low.chunks
                &&& cut.base == low.base
                &&& cut.acme == self.alloc_acme
            }),
    {
        let h = self.heap();
        let c0 = self.chunks@;
        let lo = self.alloc_base as int;
        let hi = self.alloc_acme as int;
        let c2 = mid.chunks@;
        let cut = (Heap { arena: self.arena, ..mid.heap() }).cut_above(a0);
        self.lemma_laid_out();
        mid.lemma_laid_out();
        assert(c2 == mid.heap().chunks);
        assert(c0.dom().contains(lo));
        assert(chunk_fits(lo, hi, lo, c0[lo]));
        assert(!c0.dom().contains(hi));
        let t = h.free_below(hi);
        if ends_free(c0, hi) {
            assert(c0.dom().contains(t) && c0[t].used is None && c0[t].acme == hi);
            assert(chunk_fits(lo, hi, t, c0[t]));
        }
        if mid.alloc_acme == a1 && a0 < a1 {
            let x = if ends_free(c0, hi) {
                t
            } else {
                hi
            };
            let y = if x == lo {
                b1
            } else {
                x
            };
            assert(c2.dom().contains(y) && c2[y].used is None && c2[y].acme == a1);
            let u = mid.heap().free_below(a1);
            assert(c2.dom().contains(u) && c2[u].used is None && c2[u].acme == a1);
            assert(chunk_fits(mid.alloc_base as int, a1, u, c2[u]));
            assert(chunk_fits(mid.alloc_base as int, a1, y, c2[y]));
            assert(u == y);
        }
        assert(cut.chunks =~= h.lowered(b1).chunks);
    }

    /// Cutting off what was gained below puts the chunks back.
    proof fn lemma_base_put_back(&self, heap: Heap, b1: int, b0: int)
        requires
            self.wf(),
            self.alloc_base < self.alloc_acme,
            0 < b1 <= b0 <= self.alloc_base <= b0 + 24,
            heap.chunks == self.heap().lowered(b1).chunks,
            heap.base == self.heap().lowered(b1).base,
            if is_free(self.chunks@, self.alloc_base as int) {
                self.alloc_base == b0
            } else {
                self.alloc_base < b0 + 24 || b1 == b0
            },
        ensures
            heap.cut_below(b0).chunks == self.chunks@,
            heap.cut_below(b0).base == self.alloc_base,
            heap.cut_below(b0).acme == heap.acme,
            heap.cut_below(b0).arena == heap.arena,
    {
        let c0 = self.chunks@;
        let lo = self.alloc_base as int;
        let hi = self.alloc_acme as int;
        self.lemma_laid_out();
        assert(c0.dom().contains(lo));
        assert(chunk_fits(lo, hi, lo, c0[lo]));
        if b1 < lo {
            assert(!c0.dom().contains(b1)) by {
                if c0.dom().contains(b1) {
                    assert(chunk_fits(lo, hi, b1, c0[b1]));
                }
            }
        }
        assert(heap.cut_below(b0).chunks =~= c0);
    }

    /// What is reserved after the arena has been extended was so before.
    proof fn lemma_reserved_before(&self, mid: Self, arena: Span, b1: int, a1: int, b: int)
        requires
            self.recorded(),
            mid.heap() == (Heap { arena, ..self.heap() }).raised(a1).lowered(b1),
            mid.chunks@.dom().contains(b),
            mid.chunks@[b].used is Some,
        ensures
            self.chunks@.dom().contains(b),
            self.chunks@[b] == mid.chunks@[b],
    {
        assert(mid.chunks@ == mid.heap().chunks);
    }

    /// Cutting the arena to what it was before it was extended is allowed, and puts the
    /// chunks back as they were.
    pub proof fn law_truncate_undoes_extend(before: Self, mid: Self, arena: Span)
        requires
            before.wf(),
            mid.wf(),
            arena.covers(before.heap().arena),
            may_use(before.words().dom(), before.bins(), arena),
            mid.heap() == before.heap().widened(arena),
            before.heap().restorable(arena),
        ensures
            mid.heap().arena.covers(before.heap().arena),
            before.heap().arena.inward().covers(mid.heap().allocated_span()),
            ({
                let heap = mid.heap().narrowed(before.heap().arena);
                &&& heap.arena == before.heap().arena
                &&& heap.chunks == before.heap().chunks
                &&& before.heap().base < before.heap().acme ==> heap.base == before.heap().base
                    && heap.acme == before.heap().acme
            }),
    {
        before.lemma_laid_out();
        mid.lemma_laid_out();
        lemma_inward_within(arena, before.arena);
        if before.alloc_base < before.alloc_acme {
            let lo = before.alloc_base as int;
            let hi = before.alloc_acme as int;
            before.lemma_wider(arena);
            lemma_in_arena(before.memory.words().dom(), before.llists as int, before.arena, lo, hi);
            let (b0, a0) = (before.arena.inward()->base, before.arena.inward()->acme);
            let (b1, a1) = (arena.inward()->base, arena.inward()->acme);
            lemma_nested(b1, a1, b0, a0);
            assert(before.chunks@.dom().contains(lo));
            assert(chunk_fits(lo, hi, lo, before.chunks@[lo]));
            before.lemma_top_put_back(mid, arena, address(b1), address(a1), address(a0));
            let cut = (Heap { arena: before.arena, ..mid.heap() }).cut_above(address(a0));
            before.lemma_base_put_back(cut, address(b1), address(b0));
            before.lemma_still_covered(mid, arena);
        } else {
            mid.law_allocated_span();
            assert forall|ptr: int, layout: Layout| !#[trigger] mid.heap().allocated(ptr, layout) by {
                law_initial(arena);
            }
            assert(before.chunks@ =~= Map::<int, Chunk>::empty()) by {
                assert forall|b: int| !before.chunks@.dom().contains(b) by {
                    if before.chunks@.dom().contains(b) {
                        assert(chunk_fits(
                            before.alloc_base as int,
                            before.alloc_acme as int,
                            b,
                            before.chunks@[b],
                        ));
                    }
                }
            }
        }
    }

    /// What is allocated lies in the arena that was there before it was extended.
    proof fn lemma_still_covered(&self, mid: Self, arena: Span)
        requires
            self.wf(),
            mid.wf(),
            self.heap().base + 24 <= self.heap().acme,
            arena.inward() is Sized,
            mid.heap() == self.heap().widened(arena),
        ensures
            self.heap().arena.inward().covers(mid.heap().allocated_span()),
    {
        mid.law_allocated_span();
        self.lemma_laid_out();
        if mid.heap().allocated_span() is Sized {
            let lo = self.alloc_base as int;
            let hi = self.alloc_acme as int;
            lemma_in_arena(self.memory.words().dom(), self.llists as int, self.arena, lo, hi);
            let (b0, a0) = (self.arena.inward()->base, self.arena.inward()->acme);
            let (b1, a1) = (address(arena.inward()->base), address(arena.inward()->acme));
            let (base, acme) = (mid.heap().allocated_span()->base, mid.heap().allocated_span()->acme);
            self.lemma_reserved_before(mid, arena, b1, a1, address(base));
            assert(chunk_fits(lo, hi, address(base), self.chunks@[address(base)]));
            let b = choose|b: int| #[trigger]
                mid.heap().chunks.dom().contains(b) && mid.heap().chunks[b].used is Some
                    && mid.heap().chunks[b].acme == address(acme);
            assert(mid.chunks@.dom().contains(b));
            self.lemma_reserved_before(mid, arena, b1, a1, b);
            assert(chunk_fits(lo, hi, b, self.chunks@[b]));
            lemma_signed(b0, a0, address(base));
            lemma_signed(b0, a0, address(acme));
        }
    }
}

/// A span within another, by addresses.
proof fn lemma_nested(b1: i64, a1: i64, b0: i64, a0: i64)
    requires
        b1 <= b0 < a0 <= a1,
        address(b1) < address(a1),
    ensures
        address(b1) <= address(b0) < address(a0) <= address(a1),
        a0 - b0 == address(a0) - address(b0),
        address(b1) == address(b0) <==> b1 == b0,
        address(a1) == address(a0) <==> a1 == a0,
{
}

} // verus!
