//! What each operation does, told by the chunks and the bounds before and after it.

use crate::bucket::{bucket, lemma_bucket_range};
use crate::layout::Layout;
use crate::malloc::{lemma_alloc_ptr, lemma_room};
use crate::memory::Memory;
use crate::model::{
    alloc_ptr, bucket_of, chunk_fits, ends_free, followed, in_free, is_free, is_multiple,
    lemma_chunk_of, lone, required, required_acme, reserve_from, reserve_to, Chunk, Heap, Use,
};
use crate::oom::{
    moved, moved_through, same_allocation, served, served_through, spared, AllocError, OomHandler,
};
use crate::span::{address, Span};
use crate::talloc::{frame, has_bins, kept, may_use, usable, Talloc};
use crate::word::lemma_round_up;
use vstd::arithmetic::power2::is_pow2;
use vstd::prelude::*;

verus! {

/// A free chunk with a place for the bytes of a request, aligned and with a word below
/// it, is large enough for the request.
proof fn lemma_place_is_room(b: int, e: int, p: int, layout: Layout)
    requires
        layout.valid(),
        b % 8 == 0,
        e % 8 == 0,
        b + 24 <= e,
        b + 8 <= p,
        p + layout.size() <= e,
        p % (layout.align() as int) == 0,
    ensures
        e - b >= required(layout.size() as int),
        alloc_ptr(b, layout) + layout.size() <= e,
{
    reveal(alloc_ptr);
    lemma_round_up(b + 8, layout.align() as int);
    lemma_size_is_room(b, e, p, layout.size() as int);
}

proof fn lemma_size_is_room(b: int, e: int, p: int, size: int)
    requires
        b % 8 == 0,
        e % 8 == 0,
        b + 24 <= e,
        b + 8 <= p,
        p + size <= e,
    ensures
        e - b >= required(size),
{
}

impl<M: Memory, H> Talloc<M, H> {
    /// A request can be met exactly if some free chunk has, above its first word, an
    /// address aligned as asked from which on the bytes fit.
    pub proof fn law_request_is_met(&self, layout: Layout)
        requires
            self.wf(),
            layout.valid(),
        ensures
            self.heap().fit(layout) is Some <==> exists|b: int, p: int|
                #![trigger self.heap().chunks.dom().contains(b), p % (layout.align() as int)]
                self.heap().chunks.dom().contains(b) && self.heap().chunks[b].used is None && b + 8
                    <= p && p + layout.size() <= self.heap().chunks[b].acme && p % (
                layout.align() as int) == 0,
    {
        let chunks = self.heap().chunks;
        let n = layout.align() as int;
        self.law_fit(layout);
        self.lemma_laid_out();
        if self.heap().fit(layout) is Some {
            let b = self.heap().fit(layout)->0;
            assert(chunk_fits(self.alloc_base as int, self.alloc_acme as int, b, chunks[b]));
            let p = alloc_ptr(b, layout);
            lemma_alloc_ptr(b, layout);
            reveal(is_multiple);
            assert(chunks.dom().contains(b) && p % n == 0);
        }
        if exists|b: int, p: int|
            #![trigger chunks.dom().contains(b), p % n]
            chunks.dom().contains(b) && chunks[b].used is None && b + 8 <= p && p + layout.size()
                <= chunks[b].acme && p % n == 0 {
            let (b, p) = choose|b: int, p: int|
                #![trigger chunks.dom().contains(b), p % n]
                chunks.dom().contains(b) && chunks[b].used is None && b + 8 <= p && p + layout.size()
                    <= chunks[b].acme && p % n == 0;
            assert(chunk_fits(self.alloc_base as int, self.alloc_acme as int, b, chunks[b]));
            lemma_place_is_room(b, chunks[b].acme, p, layout);
            assert(is_free(chunks, b) && self.heap().has_room(b, layout));
        }
    }

    /// A request is met from a chunk of the lowest bucket in which any chunk has a place
    /// for it, and from the first such chunk there.
    pub proof fn law_first_choice(&self, layout: Layout, b: int, d: int, p: int)
        requires
            self.wf(),
            layout.valid(),
            self.heap().fit(layout) == Some(b),
            self.heap().chunks.dom().contains(d),
            self.heap().chunks[d].used is None,
            d + 8 <= p,
            p + layout.size() <= self.heap().chunks[d].acme,
            p % (layout.align() as int) == 0,
        ensures
            ({
                let chunks = self.heap().chunks;
                let g = bucket(chunks[b].acme - b);
                let h = bucket(chunks[d].acme - d);
                &&& g <= h
                &&& g == h ==> self.heap().lists[g].index_of(b) <= self.heap().lists[g].index_of(d)
            }),
    {
        let heap = self.heap();
        self.lemma_laid_out();
        self.law_listed();
        assert(chunk_fits(self.alloc_base as int, self.alloc_acme as int, d, self.chunks@[d]));
        lemma_place_is_room(d, heap.chunks[d].acme, p, layout);
        assert(is_free(heap.chunks, d));
        let h = bucket_of(heap.chunks, d);
        lemma_bucket_range(heap.chunks[d].acme - d);
        assert(heap.lists[h].contains(d));
        let j = heap.lists[h].index_of(d);
        self.law_best_bucket(layout, b, h, j);
    }

    /// An allocation stands in a free chunk, at the lowest address above the chunk's
    /// first word that is aligned as asked.
    pub proof fn law_place(&self, layout: Layout)
        requires
            self.wf(),
            layout.valid(),
            self.heap().fit(layout) is Some,
        ensures
            ({
                let b = self.heap().fit(layout)->0;
                let ptr = alloc_ptr(b, layout);
                let n = layout.align() as int;
                &&& self.heap().chunks.dom().contains(b)
                &&& self.heap().chunks[b].used is None
                &&& b + 8 <= ptr
                &&& ptr + layout.size() <= self.heap().chunks[b].acme
                &&& ptr % n == 0
                &&& forall|p: int| b + 8 <= p && #[trigger] (p % n) == 0 ==> ptr <= p
                &&& ptr <= u64::MAX
            }),
    {
        self.law_fit(layout);
        self.lemma_laid_out();
        let b = self.heap().fit(layout)->0;
        assert(chunk_fits(self.alloc_base as int, self.alloc_acme as int, b, self.chunks@[b]));
        lemma_alloc_ptr(b, layout);
        reveal(is_multiple);
        reveal(alloc_ptr);
        lemma_round_up(b + 8, layout.align() as int);
    }

    /// Of the free chunk that a request is met from, the allocation's chunk takes what it
    /// needs: the tag, the bytes up to the next word, and no less than the smallest
    /// chunk. What is left on either side is free again if it is enough for a chunk.
    /// Nothing else changes.
    pub proof fn law_malloc(before: Self, after: Self, layout: Layout)
        requires
            before.wf(),
            after.wf(),
            layout.valid(),
            layout.size() > 0,
            before.heap().fit(layout) matches Some(b) && after.heap() == before.heap().allocate(
                b,
                layout,
            ),
        ensures
            ({
                let b = before.heap().fit(layout)->0;
                let e = before.heap().chunks[b].acme;
                let ptr = alloc_ptr(b, layout);
                let chunks = after.heap().chunks;
                let t = after.heap().chunk_of(ptr);
                let end = chunks[t].acme;
                let bytes = (ptr + layout.size() + 7) / 8 * 8;
                let need = if bytes < t + 24 {
                    t + 24
                } else {
                    bytes
                };
                let high = if e - 24 < ptr - 8 {
                    e - 24
                } else {
                    ptr - 8
                };
                &&& chunks.dom().contains(t)
                &&& chunks[t].used == Some(Use { ptr, layout })
                &&& t == if high - b >= 24 {
                    high
                } else {
                    b
                }
                &&& need <= end < need + 24
                &&& end == if e - need >= 24 {
                    need
                } else {
                    e
                }
                &&& b < t ==> chunks.dom().contains(b) && chunks[b] == (Chunk {
                    acme: t,
                    used: None,
                })
                &&& end < e ==> chunks.dom().contains(end) && chunks[end] == (Chunk {
                    acme: e,
                    used: None,
                })
                &&& forall|a: int|
                    b <= a < e && !(t <= a < end) ==> #[trigger] in_free(chunks, a)
                &&& forall|d: int| #[trigger]
                    chunks.dom().contains(d) && b <= d < e ==> d == b || d == t || d == end
                &&& forall|d: int|
                    #![trigger chunks.dom().contains(d)]
                    #![trigger before.heap().chunks.dom().contains(d)]
                    !(b <= d < e) ==> (chunks.dom().contains(d)
                        <==> before.heap().chunks.dom().contains(d)) && (chunks.dom().contains(d)
                        ==> chunks[d] == before.heap().chunks[d])
                &&& after.heap().base == before.heap().base
                &&& after.heap().acme == before.heap().acme
                &&& after.heap().arena == before.heap().arena
            }),
    {
        before.law_fit(layout);
        before.lemma_laid_out();
        after.lemma_laid_out();
        let b = before.heap().fit(layout)->0;
        let c0 = before.chunks@;
        let e = c0[b].acme;
        let ptr = alloc_ptr(b, layout);
        let chunks = after.heap().chunks;
        assert(chunk_fits(before.alloc_base as int, before.alloc_acme as int, b, c0[b]));
        lemma_room(b, e, layout);
        let (t, end) = lemma_division(b, e, ptr, layout.size() as int);
        let u = Use { ptr, layout };
        assert(chunks.dom().contains(t) && chunks[t] == (Chunk { acme: end, used: Some(u) }));
        lemma_chunk_of(after.heap(), t);
        assert forall|d: int| #[trigger] c0.dom().contains(d) && b <= d < e implies d == b by {}
        assert forall|a: int| b <= a < e && !(t <= a < end) implies #[trigger] in_free(chunks, a) by {
            if a < t {
                assert(chunks.dom().contains(b));
            } else {
                assert(chunks.dom().contains(end));
            }
        }
    }
}

/// How a free chunk from `b` to `e` is divided for `size` bytes at `ptr`.
proof fn lemma_division(b: int, e: int, ptr: int, size: int) -> (r: (int, int))
    ensures
        r.0 == reserve_from(b, e, ptr),
        r.1 == reserve_to(required_acme(r.0, ptr, size), e),
        ({
            let (t, end) = r;
            let bytes = (ptr + size + 7) / 8 * 8;
            let need = if bytes < t + 24 {
                t + 24
            } else {
                bytes
            };
            let high = if e - 24 < ptr - 8 {
                e - 24
            } else {
                ptr - 8
            };
            &&& t == if high - b >= 24 {
                high
            } else {
                b
            }
            &&& need == required_acme(t, ptr, size)
            &&& end == if e - need >= 24 {
                need
            } else {
                e
            }
        }),
{
    let t = reserve_from(b, e, ptr);
    (t, reserve_to(required_acme(t, ptr, size), e))
}

impl<M: Memory, H> Talloc<M, H> {
    /// The chunk of an allocation that is freed becomes free, from `x` to `y`: together
    /// with the free chunk below it, if there is one, and with the one above. It is the
    /// first of its bucket. Nothing else changes.
    pub proof fn law_free_joins(before: Self, after: Self, ptr: int, layout: Layout) -> (r: (int, int))
        requires
            before.wf(),
            after.wf(),
            before.heap().allocated(ptr, layout),
            after.heap() == before.heap().freed(ptr),
        ensures
            ({
                let (x, y) = r;
                let old = before.heap().chunks;
                let chunks = after.heap().chunks;
                let b = before.heap().chunk_of(ptr);
                let e = old[b].acme;
                &&& old.dom().contains(b) && old[b].used == Some(Use { ptr, layout })
                &&& x <= b && e <= y
                &&& if x < b {
                    old.dom().contains(x) && old[x] == (Chunk { acme: b, used: None })
                } else {
                    forall|d: int| #[trigger]
                        old.dom().contains(d) && old[d].acme == b ==> old[d].used is Some
                }
                &&& if e < y {
                    old.dom().contains(e) && old[e] == (Chunk { acme: y, used: None })
                } else {
                    old.dom().contains(e) ==> old[e].used is Some
                }
                &&& chunks.dom().contains(x) && chunks[x] == (Chunk { acme: y, used: None })
                &&& forall|a: int| x <= a < y ==> #[trigger] in_free(chunks, a)
                &&& forall|d: int| #[trigger] chunks.dom().contains(d) && x <= d < y ==> d == x
                &&& forall|d: int|
                    #![trigger chunks.dom().contains(d)]
                    #![trigger old.dom().contains(d)]
                    !(x <= d < y) ==> (chunks.dom().contains(d) <==> old.dom().contains(d)) && (
                    chunks.dom().contains(d) ==> chunks[d] == old[d])
                &&& after.heap().lists[bucket(y - x)].len() > 0
                &&& after.heap().lists[bucket(y - x)][0] == x
                &&& after.heap().base == before.heap().base
                &&& after.heap().acme == before.heap().acme
                &&& after.heap().arena == before.heap().arena
            }),
    {
        let heap = before.heap();
        let c0 = before.chunks@;
        let lo = before.alloc_base as int;
        let hi = before.alloc_acme as int;
        before.lemma_laid_out();
        after.lemma_laid_out();
        before.lemma_locate(ptr, layout);
        let b = heap.chunk_of(ptr);
        let e = c0[b].acme;
        let y = heap.free_up_to(e);
        if is_free(c0, e) {
            assert(chunk_fits(lo, hi, e, c0[e]));
            lemma_bucket_range(c0[e].acme - e);
        }
        let x = if ends_free(c0, b) {
            heap.free_below(b)
        } else {
            b
        };
        if ends_free(c0, b) {
            assert(c0.dom().contains(x) && c0[x].used is None && c0[x].acme == b);
            assert(chunk_fits(lo, hi, x, c0[x]));
            lemma_bucket_range(b - x);
        }
        let chunks = after.heap().chunks;
        assert(chunks.dom().contains(x) && chunks[x] == (Chunk { acme: y, used: None }));
        assert forall|a: int| x <= a < y implies #[trigger] in_free(chunks, a) by {
            assert(chunks.dom().contains(x));
        }
        lemma_bucket_range(y - x);
        after.law_listed();
        before.law_listed();
        let above = heap.without_free_at(e);
        let rest = Heap { chunks: above.chunks.remove(b), ..above };
        let last = if ends_free(c0, b) {
            rest.strike(x)
        } else {
            rest
        };
        assert(last.lists.len() == 128);
        assert(after.heap() == last.record(x, y));
        (x, y)
    }

    /// The chunk of an allocation has room for a new size exactly if the bytes end in it;
    /// it can be given room exactly if they end in it or in the free chunk above.
    pub proof fn law_grow_choice(&self, ptr: int, layout: Layout, new_size: int)
        requires
            self.wf(),
            self.heap().allocated(ptr, layout),
            0 < new_size,
        ensures
            ({
                let chunks = self.heap().chunks;
                let e = chunks[self.heap().chunk_of(ptr)].acme;
                let top = if chunks.dom().contains(e) && chunks[e].used is None {
                    chunks[e].acme
                } else {
                    e
                };
                &&& self.heap().is_roomy(ptr, new_size) <==> ptr + new_size <= e
                &&& self.heap().is_roomy(ptr, new_size) || self.heap().is_extensible(ptr, new_size)
                    <==> ptr + new_size <= top
            }),
    {
        self.lemma_laid_out();
        self.lemma_locate(ptr, layout);
        let e = self.chunks@[self.heap().chunk_of(ptr)].acme;
        if is_free(self.chunks@, e) {
            assert(chunk_fits(
                self.alloc_base as int,
                self.alloc_acme as int,
                e,
                self.chunks@[e],
            ));
        }
    }

    /// An allocation that grows where it is keeps its chunk if the bytes end in it.
    /// Otherwise its chunk takes of the free chunk above what it needs; what is left is
    /// free again if it is enough for a chunk. Nothing else changes.
    pub proof fn law_grow_in_place(
        before: Self,
        after: Self,
        ptr: int,
        layout: Layout,
        new_size: u64,
    )
        requires
            before.wf(),
            after.wf(),
            before.heap().allocated(ptr, layout),
            0 < new_size,
            if before.heap().is_roomy(ptr, new_size as int) {
                after.heap() == before.heap().relaid(ptr, layout, new_size)
            } else {
                before.heap().is_extensible(ptr, new_size as int) && after.heap()
                    == before.heap().extended(ptr, layout, new_size)
            },
        ensures
            ({
                let old = before.heap().chunks;
                let chunks = after.heap().chunks;
                let b = before.heap().chunk_of(ptr);
                let e = old[b].acme;
                let end = chunks[b].acme;
                let bytes = (ptr + new_size + 7) / 8 * 8;
                let need = if bytes < b + 24 {
                    b + 24
                } else {
                    bytes
                };
                let top = if ptr + new_size <= e {
                    e
                } else {
                    old[e].acme
                };
                &&& old.dom().contains(b) && old[b].used == Some(Use { ptr, layout })
                &&& chunks.dom().contains(b)
                &&& chunks[b].used matches Some(u) && u.ptr == ptr && u.layout.size() == new_size
                    && u.layout.align() == layout.align()
                &&& after.heap().chunk_of(ptr) == b
                &&& end == if ptr + new_size <= e {
                    e
                } else if top - need >= 24 {
                    need
                } else {
                    top
                }
                &&& ptr + new_size > e ==> need <= end < need + 24 && old.dom().contains(e)
                    && old[e].used is None
                &&& end < top ==> chunks.dom().contains(end) && chunks[end] == (Chunk {
                    acme: top,
                    used: None,
                })
                &&& forall|a: int| end <= a < top ==> #[trigger] in_free(chunks, a)
                &&& forall|d: int| #[trigger]
                    chunks.dom().contains(d) && b <= d < top ==> d == b || d == end
                &&& forall|d: int|
                    #![trigger chunks.dom().contains(d)]
                    #![trigger old.dom().contains(d)]
                    !(b <= d < top) ==> (chunks.dom().contains(d) <==> old.dom().contains(d)) && (
                    chunks.dom().contains(d) ==> chunks[d] == old[d])
                &&& after.heap().base == before.heap().base
                &&& after.heap().acme == before.heap().acme
                &&& after.heap().arena == before.heap().arena
            }),
    {
        let c0 = before.chunks@;
        let lo = before.alloc_base as int;
        let hi = before.alloc_acme as int;
        before.lemma_laid_out();
        after.lemma_laid_out();
        before.law_grow_choice(ptr, layout, new_size as int);
        before.lemma_locate(ptr, layout);
        let b = before.heap().chunk_of(ptr);
        let e = c0[b].acme;
        if is_free(c0, e) {
            assert(chunk_fits(lo, hi, e, c0[e]));
        }
        let chunks = after.heap().chunks;
        assert(chunks.dom().contains(b));
        assert(chunks[b].used == Some(Heap::resized(ptr, layout, new_size)));
        lemma_chunk_of(after.heap(), b);
        if ptr + new_size > e {
            let end = chunks[b].acme;
            let top = c0[e].acme;
            assert forall|a: int| end <= a < top implies #[trigger] in_free(chunks, a) by {
                assert(chunks.dom().contains(end));
            }
        }
    }

    /// An allocation that is cut keeps what it needs of its chunk. What the chunk has
    /// above that becomes free, together with the free chunk above, if it is enough for
    /// a chunk. Nothing else changes.
    pub proof fn law_shrink(before: Self, after: Self, ptr: int, layout: Layout, new_size: u64)
        requires
            before.wf(),
            after.wf(),
            before.heap().allocated(ptr, layout),
            0 < new_size <= layout.size(),
            after.heap() == before.heap().shrunk(ptr, layout, new_size),
        ensures
            ({
                let old = before.heap().chunks;
                let chunks = after.heap().chunks;
                let b = before.heap().chunk_of(ptr);
                let e = old[b].acme;
                let end = chunks[b].acme;
                let bytes = (ptr + new_size + 7) / 8 * 8;
                let need = if bytes < b + 24 {
                    b + 24
                } else {
                    bytes
                };
                let top = if end < e && old.dom().contains(e) && old[e].used is None {
                    old[e].acme
                } else {
                    e
                };
                &&& old.dom().contains(b) && old[b].used == Some(Use { ptr, layout })
                &&& chunks.dom().contains(b)
                &&& chunks[b].used matches Some(u) && u.ptr == ptr && u.layout.size() == new_size
                    && u.layout.align() == layout.align()
                &&& after.heap().chunk_of(ptr) == b
                &&& need <= end < need + 24
                &&& end == if e - need >= 24 {
                    need
                } else {
                    e
                }
                &&& end < e ==> chunks.dom().contains(end) && chunks[end] == (Chunk {
                    acme: top,
                    used: None,
                })
                &&& forall|a: int| end <= a < e ==> #[trigger] in_free(chunks, a)
                &&& forall|d: int| #[trigger]
                    chunks.dom().contains(d) && b <= d < top ==> d == b || d == end
                &&& forall|d: int|
                    #![trigger chunks.dom().contains(d)]
                    #![trigger old.dom().contains(d)]
                    !(b <= d < top) ==> (chunks.dom().contains(d) <==> old.dom().contains(d)) && (
                    chunks.dom().contains(d) ==> chunks[d] == old[d])
                &&& after.heap().base == before.heap().base
                &&& after.heap().acme == before.heap().acme
                &&& after.heap().arena == before.heap().arena
            }),
    {
        let c0 = before.chunks@;
        let lo = before.alloc_base as int;
        let hi = before.alloc_acme as int;
        before.lemma_laid_out();
        after.lemma_laid_out();
        before.lemma_locate(ptr, layout);
        let b = before.heap().chunk_of(ptr);
        let e = c0[b].acme;
        if is_free(c0, e) {
            assert(chunk_fits(lo, hi, e, c0[e]));
        }
        let chunks = after.heap().chunks;
        assert(chunks.dom().contains(b));
        assert(chunks[b].used == Some(Heap::resized(ptr, layout, new_size)));
        lemma_chunk_of(after.heap(), b);
        let end = chunks[b].acme;
        assert forall|a: int| end <= a < e implies #[trigger] in_free(chunks, a) by {
            assert(chunks.dom().contains(end));
        }
    }
}

impl<M: Memory, H> Talloc<M, H> {
    /// Whether the heap is one free chunk that takes all words of the arena, if there are
    /// enough for a chunk, and is empty otherwise.
    proof fn lemma_fresh(&self, arena: Span)
        requires
            self.wf(),
            self.heap() == Heap::initial(arena),
        ensures
            self.heap().arena == arena,
            match arena.inward() {
                Span::Sized { base, acme } => if acme - base >= 24 {
                    &&& self.heap().base == address(base)
                    &&& self.heap().acme == address(acme)
                    &&& address(base) < address(acme)
                    &&& self.heap().allocatable_span() == arena.inward()
                    &&& self.heap().chunks == Map::<int, Chunk>::empty().insert(
                        address(base),
                        Chunk { acme: address(acme), used: None },
                    )
                } else {
                    self.heap().allocatable_span() == Span::Empty && self.heap().chunks == Map::<
                        int,
                        Chunk,
                    >::empty()
                },
                Span::Empty => self.heap().allocatable_span() == Span::Empty && self.heap().chunks
                    == Map::<int, Chunk>::empty(),
            },
    {
        reveal(usable);
        self.lemma_laid_out();
    }

    /// An allocator that has been given an arena has one free chunk that takes all words
    /// of the arena, if there are enough for a chunk; otherwise it has no heap.
    pub proof fn law_init(after: Self, arena: Span)
        requires
            after.wf(),
            after.heap() == Heap::initial(arena),
        ensures
            after.heap().arena == arena,
            match arena.inward() {
                Span::Sized { base, acme } => if acme - base >= 24 {
                    &&& after.heap().allocatable_span() == arena.inward()
                    &&& after.heap().chunks == Map::<int, Chunk>::empty().insert(
                        address(base),
                        Chunk { acme: address(acme), used: None },
                    )
                    &&& after.heap().base == address(base)
                    &&& after.heap().acme == address(acme)
                } else {
                    after.heap().allocatable_span() == Span::Empty && after.heap().chunks == Map::<
                        int,
                        Chunk,
                    >::empty()
                },
                Span::Empty => after.heap().allocatable_span() == Span::Empty && after.heap().chunks
                    == Map::<int, Chunk>::empty(),
            },
    {
        after.lemma_fresh(arena);
    }

    /// An allocator without a heap that has its arena extended or cut is as one that has
    /// been given the new arena.
    pub proof fn law_resize_nothing(before: Self, after: Self, arena: Span)
        requires
            before.wf(),
            after.wf(),
            before.heap().allocatable_span() == Span::Empty,
            after.heap() == before.heap().widened(arena) || after.heap() == before.heap().narrowed(
                arena,
            ),
        ensures
            after.heap().arena == arena,
            match arena.inward() {
                Span::Sized { base, acme } => if acme - base >= 24 {
                    &&& after.heap().allocatable_span() == arena.inward()
                    &&& after.heap().chunks == Map::<int, Chunk>::empty().insert(
                        address(base),
                        Chunk { acme: address(acme), used: None },
                    )
                } else {
                    after.heap().allocatable_span() == Span::Empty && after.heap().chunks == Map::<
                        int,
                        Chunk,
                    >::empty()
                },
                Span::Empty => after.heap().allocatable_span() == Span::Empty && after.heap().chunks
                    == Map::<int, Chunk>::empty(),
            },
    {
        before.law_spans();
        after.lemma_fresh(arena);
    }

    /// A heap whose arena is extended reaches as far as the new one at an end where it is
    /// free, or where more is gained than the smallest chunk; at another end it stays.
    /// What is gained is free, and what is reserved stays as it is.
    pub proof fn law_extend_reaches(before: Self, after: Self, arena: Span)
        requires
            before.wf(),
            after.wf(),
            before.heap().base < before.heap().acme,
            arena.covers(before.heap().arena),
            may_use(before.words().dom(), before.bins(), arena),
            after.heap() == before.heap().widened(arena),
        ensures
            after.heap().arena == arena,
            arena.inward() matches Span::Sized { base, acme } && {
                let old = before.heap();
                let new = after.heap();
                let is_top_free = exists|d: int| #[trigger]
                    old.chunks.dom().contains(d) && old.chunks[d].used is None && old.chunks[d].acme
                        == old.acme;
                let is_bottom_free = old.chunks[old.base].used is None;
                &&& new.acme == if is_top_free || address(acme) - old.acme > 24 {
                    address(acme)
                } else {
                    old.acme
                }
                &&& new.base == if is_bottom_free || old.base - address(base) > 24 {
                    address(base)
                } else {
                    old.base
                }
                &&& forall|a: int|
                    new.base <= a < old.base || old.acme <= a < new.acme ==> #[trigger] in_free(
                        new.chunks,
                        a,
                    )
            },
            forall|d: int|
                #![trigger after.heap().chunks.dom().contains(d)]
                #![trigger before.heap().chunks.dom().contains(d)]
                (after.heap().chunks.dom().contains(d) && after.heap().chunks[d].used is Some <==>
                before.heap().chunks.dom().contains(d) && before.heap().chunks[d].used is Some) && (
                after.heap().chunks.dom().contains(d) && after.heap().chunks[d].used is Some
                    ==> after.heap().chunks[d] == before.heap().chunks[d]),
    {
        let h = before.heap();
        let c0 = before.chunks@;
        let lo = before.alloc_base as int;
        let hi = before.alloc_acme as int;
        before.lemma_laid_out();
        after.lemma_laid_out();
        before.lemma_wider(arena);
        assert(c0.dom().contains(lo));
        assert(chunk_fits(lo, hi, lo, c0[lo]));
        let t = h.free_below(hi);
        if ends_free(c0, hi) {
            assert(c0.dom().contains(t) && c0[t].used is None && c0[t].acme == hi);
            assert(chunk_fits(lo, hi, t, c0[t]));
        }
        let (base, acme) = (address(arena.inward()->base), address(arena.inward()->acme));
        let mid = (Heap { arena, ..h }).raised(acme);
        assert(!c0.dom().contains(hi));
        assert(after.heap() == mid.lowered(base));
        before.lemma_gain(after);
    }

    /// What is gained by extending is free.
    proof fn lemma_gain(&self, after: Self)
        requires
            self.wf(),
            after.wf(),
            self.heap().base < self.heap().acme,
            after.heap().base <= self.heap().base,
            self.heap().acme <= after.heap().acme,
            forall|d: int|
                #![trigger after.heap().chunks.dom().contains(d)]
                after.heap().chunks.dom().contains(d) && after.heap().chunks[d].used is Some
                    ==> self.heap().chunks.dom().contains(d) && after.heap().chunks[d]
                    == self.heap().chunks[d],
        ensures
            forall|a: int|
                after.heap().base <= a < self.heap().base || self.heap().acme <= a < after.heap().acme
                    ==> #[trigger] in_free(after.heap().chunks, a),
    {
        self.lemma_laid_out();
        assert forall|a: int|
            after.heap().base <= a < self.heap().base || self.heap().acme <= a
                < after.heap().acme implies #[trigger] in_free(after.heap().chunks, a) by {
            after.law_tiled(a);
            let d = choose|d: int| #[trigger]
                after.heap().chunks.dom().contains(d) && d <= a < after.heap().chunks[d].acme;
            if after.heap().chunks[d].used is Some {
                assert(chunk_fits(
                    self.alloc_base as int,
                    self.alloc_acme as int,
                    d,
                    self.chunks@[d],
                ));
            }
        }
    }
}

impl<M: Memory, H> Talloc<M, H> {
    /// A heap whose arena is cut ends, at an end beyond the new arena, with that arena, or
    /// where its free chunk there starts, if what would be left of that is too little
    /// for a chunk; at another end it stays. What is reserved stays as it is. In an arena
    /// with too few words for a chunk there is no heap, and nothing was reserved.
    pub proof fn law_truncate_reaches(before: Self, after: Self, arena: Span)
        requires
            before.wf(),
            after.wf(),
            before.heap().base < before.heap().acme,
            before.heap().arena.covers(arena),
            arena.inward().covers(before.heap().allocated_span()),
            after.heap() == before.heap().narrowed(arena),
        ensures
            after.heap().arena == arena,
            ({
                let old = before.heap();
                let new = after.heap();
                if arena.inward().length() >= 24 {
                    let base = address(arena.inward()->base);
                    let acme = address(arena.inward()->acme);
                    let e = if old.chunks[old.base].acme < new.acme {
                        old.chunks[old.base].acme
                    } else {
                        new.acme
                    };
                    &&& old.acme <= acme ==> new.acme == old.acme
                    &&& acme < old.acme ==> exists|t: int| #[trigger]
                        old.chunks.dom().contains(t) && old.chunks[t].used is None
                            && old.chunks[t].acme == old.acme && t <= acme && new.acme == if acme - t
                            >= 24 {
                            acme
                        } else {
                            t
                        }
                    &&& base <= old.base ==> new.base == old.base
                    &&& old.base < base ==> old.chunks[old.base].used is None && base <= e && new.base
                        == if e - base >= 24 {
                        base
                    } else {
                        e
                    }
                } else {
                    new.allocatable_span() == Span::Empty && new.chunks == Map::<int, Chunk>::empty()
                }
            }),
            forall|d: int|
                #![trigger after.heap().chunks.dom().contains(d)]
                #![trigger before.heap().chunks.dom().contains(d)]
                (after.heap().chunks.dom().contains(d) && after.heap().chunks[d].used is Some <==>
                before.heap().chunks.dom().contains(d) && before.heap().chunks[d].used is Some) && (
                after.heap().chunks.dom().contains(d) && after.heap().chunks[d].used is Some
                    ==> after.heap().chunks[d] == before.heap().chunks[d]),
    {
        let h = before.heap();
        let c0 = before.chunks@;
        let lo = before.alloc_base as int;
        let hi = before.alloc_acme as int;
        before.lemma_laid_out();
        after.lemma_laid_out();
        before.lemma_allocated_bounds();
        assert(c0.dom().contains(lo));
        assert(chunk_fits(lo, hi, lo, c0[lo]));
        if arena.inward().length() >= 24 {
            let (b1, a1) = (arena.inward()->base, arena.inward()->acme);
            before.lemma_narrower(arena, b1, a1);
            let (base, acme) = (address(b1), address(a1));
            let t = h.free_below(hi);
            if ends_free(c0, hi) {
                assert(c0.dom().contains(t) && c0[t].used is None && c0[t].acme == hi);
                assert(chunk_fits(lo, hi, t, c0[t]));
                if lo < t {
                    assert(c0[lo].acme <= t);
                }
            }
            let cut = (Heap { arena, ..h }).cut_above(acme);
            assert(after.heap() == cut.cut_below(base));
            assert(acme < hi ==> ends_free(c0, hi) && t <= acme);
            assert(lo < base ==> is_free(c0, lo));
            assert(after.heap().acme == cut.acme);
        } else {
            before.lemma_nothing_left(arena);
            after.lemma_fresh(arena);
            assert forall|d: int| #[trigger] c0.dom().contains(d) implies c0[d].used is None by {}
        }
    }

    /// The reserved chunks and the bounds of a heap tell all of its chunks.
    pub proof fn law_determined(one: Self, other: Self)
        requires
            one.wf(),
            other.wf(),
            one.heap().base == other.heap().base,
            one.heap().acme == other.heap().acme,
            forall|d: int|
                #![trigger one.heap().chunks.dom().contains(d)]
                #![trigger other.heap().chunks.dom().contains(d)]
                (one.heap().chunks.dom().contains(d) && one.heap().chunks[d].used is Some <==>
                other.heap().chunks.dom().contains(d) && other.heap().chunks[d].used is Some) && (
                one.heap().chunks.dom().contains(d) && one.heap().chunks[d].used is Some
                    ==> one.heap().chunks[d] == other.heap().chunks[d]),
        ensures
            one.heap().chunks == other.heap().chunks,
    {
        one.lemma_free_in(other);
        other.lemma_free_in(one);
        assert(one.heap().chunks =~= other.heap().chunks);
    }

    /// A free chunk of one heap is a chunk of another with the same bounds and the same
    /// reserved chunks.
    proof fn lemma_free_in(&self, other: Self)
        requires
            self.wf(),
            other.wf(),
            self.heap().base == other.heap().base,
            self.heap().acme == other.heap().acme,
            forall|d: int|
                #![trigger self.heap().chunks.dom().contains(d)]
                #![trigger other.heap().chunks.dom().contains(d)]
                (self.heap().chunks.dom().contains(d) && self.heap().chunks[d].used is Some <==>
                other.heap().chunks.dom().contains(d) && other.heap().chunks[d].used is Some) && (
                self.heap().chunks.dom().contains(d) && self.heap().chunks[d].used is Some
                    ==> self.heap().chunks[d] == other.heap().chunks[d]),
        ensures
            forall|b: int| #[trigger]
                self.heap().chunks.dom().contains(b) ==> other.heap().chunks.dom().contains(b)
                    && other.heap().chunks[b] == self.heap().chunks[b],
    {
        let c = self.heap().chunks;
        let c2 = other.heap().chunks;
        let lo = self.alloc_base as int;
        let hi = self.alloc_acme as int;
        self.lemma_laid_out();
        other.lemma_laid_out();
        assert forall|b: int| #[trigger] c.dom().contains(b) implies c2.dom().contains(b) && c2[b]
            == c[b] by {
            if c[b].used is None {
                assert(chunk_fits(lo, hi, b, c[b]));
                let e = c[b].acme;
                // the chunk of the other heap that holds the first address
                other.law_tiled(b);
                let d = choose|d: int| #[trigger] c2.dom().contains(d) && d <= b < c2[d].acme;
                assert(c2[d].used is None) by {
                    if c2[d].used is Some {
                        assert(c.dom().contains(d));
                    }
                }
                assert(chunk_fits(lo, hi, d, c2[d]));
                if d < b {
                    self.lemma_reserved_below(b);
                    let r = choose|r: int| #[trigger]
                        c.dom().contains(r) && c[r].used is Some && c[r].acme == b;
                    assert(c2.dom().contains(r));
                    assert(chunk_fits(lo, hi, r, c[r]));
                }
                assert(d == b);
                let e2 = c2[b].acme;
                assert(followed(c, hi, b) && followed(c2, hi, b));
                assert(lone(c, b) && lone(c2, b));
                if e < e2 {
                    assert(c.dom().contains(e) && c[e].used is Some);
                    assert(c2.dom().contains(e));
                } else if e2 < e {
                    assert(c2.dom().contains(e2) && c2[e2].used is Some);
                    assert(c.dom().contains(e2));
                }
            }
        }
    }

    /// Below a free chunk that is not the lowest there is a reserved one.
    proof fn lemma_reserved_below(&self, b: int)
        requires
            self.wf(),
            is_free(self.chunks@, b),
            self.alloc_base < b,
        ensures
            exists|r: int| #[trigger]
                self.chunks@.dom().contains(r) && self.chunks@[r].used is Some && self.chunks@[r].acme
                    == b,
    {
        let c = self.chunks@;
        let lo = self.alloc_base as int;
        let hi = self.alloc_acme as int;
        self.lemma_laid_out();
        assert(chunk_fits(lo, hi, b, c[b]));
        self.law_tiled(b - 1);
        let r = choose|r: int| #[trigger] c.dom().contains(r) && r <= b - 1 < c[r].acme;
        assert(chunk_fits(lo, hi, r, c[r]));
        assert(c[r].acme == b);
        if c[r].used is None {
            assert(is_free(c, r));
            assert(lone(c, r));
        }
    }
}

impl<M: Memory, H: OomHandler<M>> Talloc<M, H> {
    /// A request for which there is room is met at once. Otherwise the handler is called:
    /// its error is the answer, and if it gives none, the answer is that to the same
    /// request in the state that it leaves.
    pub proof fn law_served(
        before: Self,
        layout: Layout,
        after: Self,
        answer: Result<u64, AllocError>,
    )
        requires
            layout.valid(),
            layout.size() > 0,
            served(before, layout, after, answer),
        ensures
            before.wf(),
            after.wf(),
            before.heap().fit(layout) matches Some(b) ==> answer == Ok::<u64, AllocError>(
                alloc_ptr(b, layout) as u64,
            ) && after.heap() == before.heap().allocate(b, layout),
            before.heap().fit(layout) is None ==> (answer matches Err(error) && H::handled(
                before,
                layout,
                after,
                Err(error),
            )) || exists|mid: Self| #[trigger]
                served(mid, layout, after, answer) && H::handled(before, layout, mid, Ok(())),
            answer matches Ok(ptr) ==> after.heap().allocated(ptr as int, layout),
    {
        let tried = choose|tried: Seq<Self>|
            tried.len() > 0 && tried[0] == before && #[trigger] served_through(
                tried,
                layout,
                after,
                answer,
            );
        assert(tried[0].wf());
        if tried.len() > 1 {
            assert(tried[0].heap().fit(layout) is None && H::handled(
                tried[0],
                layout,
                tried[1],
                Ok(()),
            ));
            let rest = tried.skip(1);
            assert(rest.last() == tried.last());
            assert forall|i: int| 0 <= i < rest.len() implies (#[trigger] rest[i]).wf() by {
                assert(rest[i] == tried[i + 1]);
            }
            assert forall|i: int| 0 <= i < rest.len() - 1 implies (
            #[trigger] rest[i]).heap().fit(layout) is None && H::handled(
                rest[i],
                layout,
                rest[i + 1],
                Ok(()),
            ) by {
                assert(rest[i] == tried[i + 1] && rest[i + 1] == tried[i + 2]);
            }
            assert(served_through(rest, layout, after, answer));
            assert(served(tried[1], layout, after, answer));
        }
    }

    /// An allocation that is moved is given a new place as if that had been asked for
    /// anew, and is then freed; if there is no new place, that is the answer.
    pub proof fn law_moved(
        before: Self,
        ptr: int,
        layout: Layout,
        new_layout: Layout,
        after: Self,
        answer: Result<u64, AllocError>,
    )
        requires
            moved(before, ptr, layout, new_layout, after, answer),
        ensures
            match answer {
                Ok(new_ptr) => exists|mid: Self| #[trigger]
                    served(before, new_layout, mid, answer) && mid.wf() && mid.heap().allocated(
                        ptr,
                        layout,
                    ) && mid.heap().allocated(new_ptr as int, new_layout) && ptr != new_ptr
                        && after.heap() == mid.heap().freed(ptr),
                Err(_) => served(before, new_layout, after, answer),
            },
    {
        if let Ok(new_ptr) = answer {
            let (mid, filled) = choose|mid: Self, filled: Map<int, u64>| #[trigger]
                moved_through(before, ptr, layout, new_layout, mid, filled, after, new_ptr);
            assert(served(before, new_layout, mid, answer));
        }
    }
}

/// An allocation that is the same afterwards is live, and all of its words are as they
/// were.
pub proof fn law_same_allocation<M: Memory, H>(
    before: Talloc<M, H>,
    after: Talloc<M, H>,
    ptr: int,
    layout: Layout,
    a: int,
)
    requires
        same_allocation(before, after, ptr, layout),
        ptr <= a < ptr + layout.size(),
    ensures
        after.words()[a] == before.words()[a],
        exists|b: int| #[trigger]
            after.heap().chunks.dom().contains(b) && after.heap().chunks[b].used == Some(
                Use { ptr, layout },
            ),
{
}

/// Serving a request leaves every allocation alone that the handler may not free.
pub proof fn law_spared<M: Memory, H: OomHandler<M>>(
    before: Talloc<M, H>,
    after: Talloc<M, H>,
    ptr: int,
    layout: Layout,
)
    requires
        spared(before, after),
        before.heap().allocated(ptr, layout),
        !H::may_free(before, ptr),
    ensures
        after.heap().allocated(ptr, layout),
        forall|a: int|
            ptr <= a < ptr + layout.size() ==> #[trigger] after.words()[a] == before.words()[a],
{
}

/// An arena can be given to an allocator if it does not hold the null address, if the
/// addresses of its words rise, if these can be read and written, and if the bucket
/// words are not among them; the bucket words can stand at any word from which on 128
/// words can be read and written.
pub proof fn law_may_use(words: Set<int>, llists: int, arena: Span)
    ensures
        may_use(words, llists, arena) <==> !arena.has(0) && (arena.inward() matches Span::Sized {
            base,
            acme,
        } ==> address(base) < address(acme) && (address(acme) <= llists || llists + 1024 <= address(
            base,
        )) && forall|a: int|
            address(base) <= a < address(acme) && a % 8 == 0 ==> #[trigger] words.contains(a)),
        has_bins(words, llists) <==> llists % 8 == 0 && llists + 1024 <= u64::MAX && forall|a: int|
            llists <= a < llists + 1024 && a % 8 == 0 ==> #[trigger] words.contains(a),
{
}

/// What an operation leaves alone: the words outside the bucket words and outside the
/// heap, as it was and as it is.
pub proof fn law_kept(
    before: Heap,
    m: Map<int, u64>,
    after: Heap,
    m2: Map<int, u64>,
    llists: int,
    a: int,
)
    requires
        kept(before, m, after, m2, llists),
        a < llists || llists + 1024 <= a,
        a < before.base || before.acme <= a,
        a < after.base || after.acme <= a,
    ensures
        m2[a] == m[a],
        m2.dom() == m.dom(),
{
}

/// What moving the buckets leaves alone: the words outside the new bucket words and
/// outside the free chunks.
pub proof fn law_frame(m: Map<int, u64>, m2: Map<int, u64>, llists: int, heap: Heap, a: int)
    requires
        frame(m, m2, llists, heap.chunks),
        a < llists || llists + 1024 <= a,
        forall|b: int| #[trigger]
            heap.chunks.dom().contains(b) && b <= a < heap.chunks[b].acme ==> heap.chunks[b].used is Some,
    ensures
        m2[a] == m[a],
        m2.dom() == m.dom(),
{
    assert(!in_free(heap.chunks, a));
}

/// Which requests there are: those whose alignment is a power of two, and whose size,
/// with what may have to be skipped to align it, is below half the address space.
pub proof fn law_layout(size: u64, align: u64)
    ensures
        Layout::valid_parts(size as int, align as int) <==> is_pow2(align as int) && 0 < align && size
            + align <= 0x8000_0000_0000_0000,
{
}

} // verus!
