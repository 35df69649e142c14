use crate::chunk::FreeChunk;
use crate::extent::{lemma_kept_join, lemma_same_reserved};
use crate::layout::Layout;
use crate::memory::Memory;
use crate::model::{chunk_fits, ends_free, followed, is_free, lone, Chunk, Heap};
use crate::oom::{same_allocation, GiveUp};
use crate::span::{address, lemma_inward_within, lemma_signed, signed, to_address, to_signed, Span};
use crate::tag::Tag;
use crate::talloc::{available, fills, has_bins, kept, may_use, reaches, tag_ok, usable, Talloc};
use crate::word::{BIN_COUNT, MIN_CHUNK_SIZE, WORD_SIZE};
use vstd::prelude::*;

verus! {

impl Heap {
    /// The heap of an allocator to which `arena` was given, and which has not
    /// allocated anything yet: one free chunk, if there is enough for one.
    pub open spec fn initial(arena: Span) -> Heap {
        let none = Heap {
            arena,
            base: 0,
            acme: 0,
            chunks: Map::empty(),
            lists: Seq::new(128, |g: int| Seq::empty()),
        };
        match arena.inward() {
            Span::Empty => none,
            Span::Sized { base, acme } => if acme - base >= 24 {
                let room = Heap { base: address(base), acme: address(acme), ..none };
                room.record(address(base), address(acme))
            } else {
                none
            },
        }
    }

    /// The span in which allocations may be placed.
    pub open spec fn allocatable_span(self) -> Span {
        Span::between(signed(self.base), signed(self.acme))
    }

    /// Where the free chunk at the bottom ends, or else the heap starts.
    pub open spec fn allocated_base(self) -> int {
        if is_free(self.chunks, self.base) {
            self.chunks[self.base].acme
        } else {
            self.base
        }
    }

    /// Where the free chunk at the top starts, or else the heap ends.
    pub open spec fn allocated_acme(self) -> int {
        if ends_free(self.chunks, self.acme) {
            self.free_below(self.acme)
        } else {
            self.acme
        }
    }

    /// The span from the lowest reserved chunk up to the end of the highest.
    pub open spec fn allocated_span(self) -> Span {
        Span::between(signed(self.allocated_base()), signed(self.allocated_acme()))
    }
}

/// Clears the bucket words.
fn clear_llists<M: Memory>(memory: &mut M, llists: u64)
    requires
        has_bins(old(memory).words().dom(), llists as int),
    ensures
        final(memory).words().dom() == old(memory).words().dom(),
        forall|g: int| 0 <= g < 128 ==> #[trigger] final(memory).words()[llists + 8 * g] == 0,
        forall|a: int|
            !(llists <= a < llists + 1024) ==> #[trigger] final(memory).words()[a] == old(
                memory).words()[a],
{
    let ghost m = memory.words();
    let mut g: u64 = 0;
    while g < BIN_COUNT
        invariant
            g <= 128,
            m == old(memory).words(),
            has_bins(m.dom(), llists as int),
            memory.words().dom() == m.dom(),
            forall|k: int| 0 <= k < g ==> #[trigger] memory.words()[llists + 8 * k] == 0,
            forall|a: int|
                !(llists <= a < llists + 1024) ==> #[trigger] memory.words()[a] == m[a],
        decreases 128 - g,
    {
        assert(m.dom().contains(llists + 8 * g));
        memory.write(llists + 8 * g, 0);
        g = g + 1;
        assert(memory.words().dom() =~= m.dom());
    }
}

impl<M: Memory, H> Talloc<M, H> {
    /// An allocator with no chunks, whose bucket words are clear, has its record in
    /// order.
    proof fn lemma_no_chunks(&self)
        requires
            has_bins(self.memory.words().dom(), self.llists as int),
            self.alloc_base <= self.alloc_acme,
            self.alloc_base % 8 == 0,
            self.alloc_acme % 8 == 0,
            reaches(self.memory.words().dom(), self.alloc_base as int, self.alloc_acme as int),
            self.alloc_base < self.alloc_acme ==> self.alloc_acme <= self.llists || self.llists + 1024
                <= self.alloc_base,
            self.availability_low == 0,
            self.availability_high == 0,
            self.chunks@ == Map::<int, Chunk>::empty(),
            self.lists@ == Seq::new(128, |g: int| Seq::<int>::empty()),
            forall|g: int|
                0 <= g < 128 ==> #[trigger] self.memory.words()[self.llists + 8 * g] == 0,
        ensures
            self.recorded(),
    {
        reveal(Talloc::recorded);
        assert forall|g: int| 0 <= g < 128 implies !available(0, 0, g) by {
            let k: u64 = if g < 64 {
                g as u64
            } else {
                (g - 64) as u64
            };
            assert((0u64 >> k) & 1 == 0) by (bit_vector)
                requires
                    k < 64,
            ;
        }
    }

    /// An allocator without memory, which calls the handler when it has no room. Its
    /// buckets stand in memory from `llists` on.
    pub fn with_oom_handler(memory: M, llists: u64, oom_handler: H) -> (talloc: Self)
        requires
            has_bins(memory.words().dom(), llists as int),
        ensures
            talloc.wf(),
            talloc.heap() == Heap::initial(Span::Empty),
            talloc.top_free(),
            talloc.bins() == llists,
            talloc.handler() == oom_handler,
            talloc.words().dom() == memory.words().dom(),
            forall|g: int| 0 <= g < 128 ==> #[trigger] talloc.words()[llists + 8 * g] == 0,
            forall|a: int|
                !(llists <= a < llists + 1024) ==> #[trigger] talloc.words()[a] == memory.words()[a],
    {
        let mut memory = memory;
        clear_llists(&mut memory, llists);
        let talloc = Talloc {
            memory,
            oom_handler,
            arena: Span::Empty,
            alloc_base: 0,
            alloc_acme: 0,
            is_top_free: true,
            availability_low: 0,
            availability_high: 0,
            llists,
            chunks: Ghost(Map::empty()),
            lists: Ghost(Seq::new(128, |g: int| Seq::empty())),
        };
        proof {
            reveal(usable);
            reveal(fills);
            talloc.lemma_no_chunks();
        }
        talloc
    }
}

impl<M: Memory> Talloc<M, GiveUp> {
    /// An allocator without memory, which fails when it has no room. Its buckets stand
    /// in memory from `llists` on.
    pub fn new(memory: M, llists: u64) -> (talloc: Self)
        requires
            has_bins(memory.words().dom(), llists as int),
        ensures
            talloc.wf(),
            talloc.heap() == Heap::initial(Span::Empty),
            talloc.top_free(),
            talloc.bins() == llists,
            talloc.handler() == GiveUp,
            talloc.words().dom() == memory.words().dom(),
            forall|g: int| 0 <= g < 128 ==> #[trigger] talloc.words()[llists + 8 * g] == 0,
            forall|a: int|
                !(llists <= a < llists + 1024) ==> #[trigger] talloc.words()[a] == memory.words()[a],
    {
        Self::with_oom_handler(memory, llists, GiveUp)
    }
}

impl<M: Memory, H> Talloc<M, H> {
    /// Gives the allocator `arena` in place of what it had, and forgets all that it has
    /// allocated.
    pub fn init(&mut self, arena: Span)
        requires
            has_bins(old(self).words().dom(), old(self).bins()),
            may_use(old(self).words().dom(), old(self).bins(), arena),
        ensures
            final(self).wf(),
            final(self).heap() == Heap::initial(arena),
            final(self).top_free() == (final(self).heap().base < final(self).heap().acme),
            final(self).bins() == old(self).bins(),
            final(self).handler() == old(self).handler(),
            final(self).words().dom() == old(self).words().dom(),
            forall|a: int|
                !(old(self).bins() <= a < old(self).bins() + 1024) && !(final(self).heap().base <= a
                    < final(self).heap().acme) ==> #[trigger] final(self).words()[a] == old(
                    self).words()[a],
    {
        let ghost s0 = *self;
        self.arena = arena;
        clear_llists(&mut self.memory, self.llists);
        self.availability_low = 0;
        self.availability_high = 0;
        proof {
            self.chunks@ = Map::empty();
            self.lists@ = Seq::new(128, |g: int| Seq::empty());
            reveal(usable);
            reveal(fills);
        }
        match arena.word_align_inward() {
            Span::Sized { base, acme } => {
                if to_address(acme) - to_address(base) >= MIN_CHUNK_SIZE {
                    self.alloc_base = to_address(base);
                    self.alloc_acme = to_address(acme);
                    proof {
                        self.lemma_no_chunks();
                    }
                    self.add_chunk_to_record(self.alloc_base, self.alloc_acme);
                    let ghost s1 = *self;
                    self.is_top_free = true;
                    proof {
                        Self::lemma_same_record(s1, *self);
                        assert(self.chunks@.dom().contains(self.alloc_base as int));
                        assert(ends_free(self.chunks@, self.alloc_acme as int));
                    }
                    return ;
                }
            },
            Span::Empty => {},
        }
        self.alloc_acme = 0;
        self.alloc_base = 0;
        self.is_top_free = false;
        proof {
            self.lemma_no_chunks();
        }
    }

    /// The span that the allocator was given.
    pub fn get_arena(&self) -> (arena: Span)
        ensures
            arena == self.heap().arena,
    {
        self.arena
    }

    /// The address of the words that hold each bucket's first node.
    pub fn get_bins(&self) -> (llists: u64)
        ensures
            llists == self.bins(),
    {
        self.llists
    }

    /// The span in which allocations may be placed.
    pub fn get_allocatable_span(&self) -> (span: Span)
        ensures
            span == self.heap().allocatable_span(),
    {
        Span::new(to_signed(self.alloc_base), to_signed(self.alloc_acme))
    }

    /// The smallest span that holds everything that is allocated, with the tags.
    pub fn get_allocated_span(&self) -> (span: Span)
        requires
            self.wf(),
        ensures
            span == self.heap().allocated_span(),
    {
        proof {
            self.lemma_laid_out();
        }
        // with no heap there is nothing allocated
        if self.alloc_acme - self.alloc_base < MIN_CHUNK_SIZE {
            proof {
                if self.alloc_base < self.alloc_acme {
                    assert(self.chunks@.dom().contains(self.alloc_base as int));
                }
                assert(!is_free(self.chunks@, self.alloc_base as int));
                assert(!ends_free(self.chunks@, self.alloc_acme as int));
            }
            return Span::Empty;
        }
        let allocated_acme: u64 = if self.is_top_free {
            self.top_free_chunk()
        } else {
            self.alloc_acme
        };
        let allocated_base: u64 = match self.base_free_acme() {
            Some(acme) => acme,
            None => self.alloc_base,
        };
        // if everything is free, the base is above the acme, and the span is empty
        Span::new(to_signed(allocated_base), to_signed(allocated_acme))
    }

    /// Where the free chunk at the top of the heap starts.
    pub(crate) fn top_free_chunk(&self) -> (b: u64)
        requires
            self.intact(),
            self.is_top_free,
            self.alloc_base < self.alloc_acme,
        ensures
            is_free(self.chunks@, b as int),
            self.chunks@[b as int].acme == self.alloc_acme,
            b == self.heap().free_below(self.alloc_acme as int),
            self.alloc_base <= b,
            b + 24 <= self.alloc_acme,
    {
        proof {
            let b = self.heap().free_below(self.alloc_acme as int);
            assert(self.chunks@.dom().contains(b) && self.chunks@[b].used is None
                && self.chunks@[b].acme == self.alloc_acme);
            assert(is_free(self.chunks@, b));
            self.lemma_sizes(b);
        }
        let top_free_size: u64 = self.memory.read(self.alloc_acme - WORD_SIZE);
        self.alloc_acme - top_free_size
    }

    /// Where the free chunk at the bottom of the heap ends, if there is one.
    pub(crate) fn base_free_acme(&self) -> (acme: Option<u64>)
        requires
            self.intact(),
            self.alloc_base < self.alloc_acme,
        ensures
            acme is Some == is_free(self.chunks@, self.alloc_base as int),
            acme matches Some(e) ==> {
                &&& self.chunks@[self.alloc_base as int].acme == e
                &&& self.alloc_base + 24 <= e <= self.alloc_acme
            },
    {
        proof {
            assert(self.chunks@.dom().contains(self.alloc_base as int));
            assert(tag_ok(self.memory.words(), self.chunks@, self.alloc_base as int));
            self.lemma_first_word(self.alloc_base as int);
        }
        if Tag(self.memory.read(self.alloc_base)).is_allocated() {
            return None;
        }
        proof {
            assert(is_free(self.chunks@, self.alloc_base as int));
            self.lemma_sizes(self.alloc_base as int);
        }
        let free_bottom_chunk = FreeChunk(self.alloc_base);
        let free_bottom_size: u64 = self.memory.read(free_bottom_chunk.size_ptr());
        Some(self.alloc_base + free_bottom_size)
    }
}

impl<M: Memory, H> Talloc<M, H> {
    /// The bucket words of an allocator can be read and written.
    proof fn lemma_has_bins(&self)
        requires
            self.recorded(),
        ensures
            has_bins(self.memory.words().dom(), self.llists as int),
    {
        reveal(Talloc::recorded);
    }

    /// An arena that covers that of the allocator covers its heap.
    pub(crate) proof fn lemma_wider(&self, arena: Span)
        requires
            self.wf(),
            self.alloc_base < self.alloc_acme,
            arena.covers(self.arena),
            may_use(self.memory.words().dom(), self.llists as int, arena),
        ensures
            arena.inward() matches Span::Sized { base, acme } && {
                &&& 0 < address(base) <= self.alloc_base
                &&& self.alloc_acme <= address(acme)
                &&& address(base) % 8 == 0
                &&& address(acme) % 8 == 0
            },
    {
        reveal(usable);
        reveal(fills);
        lemma_inward_within(arena, self.arena);
    }

    /// The mark of a free top is right where there is a heap, and where there is none
    /// if it is clear.
    proof fn lemma_top_mark(&self)
        requires
            self.wf(),
            self.is_top_free ==> self.alloc_base < self.alloc_acme,
        ensures
            self.top_free() == ends_free(self.heap().chunks, self.heap().acme),
    {
        let chunks = self.chunks@;
        let lo = self.alloc_base as int;
        let hi = self.alloc_acme as int;
        self.lemma_laid_out();
        if lo >= hi && ends_free(chunks, hi) {
            let b = choose|b: int| #[trigger]
                chunks.dom().contains(b) && chunks[b].used is None && chunks[b].acme == hi;
            assert(chunk_fits(lo, hi, b, chunks[b]));
        }
    }

    /// Extends the arena to `new_arena`.
    pub fn extend(&mut self, new_arena: Span)
        requires
            old(self).wf(),
            new_arena.covers(old(self).heap().arena),
            may_use(old(self).words().dom(), old(self).bins(), new_arena),
        ensures
            final(self).wf(),
            final(self).heap() == old(self).heap().widened(new_arena),
            final(self).top_free() == ends_free(
                final(self).heap().chunks,
                final(self).heap().acme,
            ),
            final(self).bins() == old(self).bins(),
            final(self).handler() == old(self).handler(),
            kept(
                old(self).heap(),
                old(self).words(),
                final(self).heap(),
                final(self).words(),
                old(self).bins(),
            ),
            forall|ptr: int, layout: Layout| #[trigger]
                old(self).heap().allocated(ptr, layout) ==> same_allocation(
                    *old(self),
                    *final(self),
                    ptr,
                    layout,
                ),
            forall|ptr: int, layout: Layout| #[trigger]
                final(self).heap().allocated(ptr, layout) ==> old(self).heap().allocated(
                    ptr,
                    layout,
                ),
    {
        let ghost s0 = *self;
        proof {
            s0.lemma_laid_out();
            s0.lemma_has_bins();
            if self.alloc_base < self.alloc_acme {
                assert(self.chunks@.dom().contains(self.alloc_base as int));
            }
        }
        if self.alloc_acme - self.alloc_base < MIN_CHUNK_SIZE {
            // there is neither free nor reserved memory
            self.init(new_arena);
            proof {
                self.lemma_top_mark();
                lemma_same_reserved(s0, *self);
            }
            return ;
        }
        proof {
            s0.lemma_wider(new_arena);
        }
        match new_arena.word_align_inward() {
            Span::Empty => {},
            Span::Sized { base, acme } => {
                self.arena = new_arena;
                let ghost s1 = *self;
                proof {
                    Self::lemma_new_bounds(s0, s1);
                }
                self.raise(to_address(acme));
                let ghost s2 = *self;
                self.lower(to_address(base));
                proof {
                    reveal(usable);
                    reveal(fills);
                    lemma_kept_join(
                        s1.heap(),
                        s1.words(),
                        s2.heap(),
                        s2.words(),
                        self.heap(),
                        self.words(),
                        s0.bins(),
                    );
                    lemma_same_reserved(s0, *self);
                }
            },
        }
    }
}

/// An allocator may use a part of what it may use.
proof fn lemma_part_usable(words: Set<int>, llists: int, arena: Span, part: Span)
    requires
        may_use(words, llists, arena),
        arena.covers(part),
    ensures
        may_use(words, llists, part),
{
    lemma_inward_within(arena, part);
}

impl<M: Memory, H> Talloc<M, H> {
    /// What is allocated lies between the free chunks at the bottom and at the top.
    pub(crate) proof fn lemma_allocated_within(&self, b: int)
        requires
            self.intact(),
            self.chunks@.dom().contains(b),
            self.chunks@[b].used is Some,
        ensures
            self.heap().allocated_base() <= b,
            b + 24 <= self.chunks@[b].acme,
            self.chunks@[b].acme <= self.heap().allocated_acme(),
    {
        let chunks = self.chunks@;
        let lo = self.alloc_base as int;
        let hi = self.alloc_acme as int;
        self.lemma_laid_out();
        assert(chunk_fits(lo, hi, b, chunks[b]));
        if ends_free(chunks, hi) {
            let t = self.heap().free_below(hi);
            assert(chunks.dom().contains(t) && chunks[t].used is None && chunks[t].acme == hi);
        }
    }

    /// The free chunks at the bottom and at the top are the same, or there is
    /// something between them.
    pub(crate) proof fn lemma_allocated_bounds(&self)
        requires
            self.intact(),
            self.alloc_base < self.alloc_acme,
        ensures
            self.alloc_base <= self.heap().allocated_base() <= self.alloc_acme,
            self.alloc_base <= self.heap().allocated_acme() <= self.alloc_acme,
            if is_free(self.chunks@, self.alloc_base as int) && self.chunks@[self.alloc_base as int].acme
                == self.alloc_acme {
                &&& ends_free(self.chunks@, self.alloc_acme as int)
                &&& self.heap().allocated_acme() == self.alloc_base
            } else {
                self.heap().allocated_base() < self.heap().allocated_acme()
            },
    {
        let chunks = self.chunks@;
        let lo = self.alloc_base as int;
        let hi = self.alloc_acme as int;
        self.lemma_laid_out();
        assert(chunks.dom().contains(lo));
        assert(chunk_fits(lo, hi, lo, chunks[lo]));
        assert(followed(chunks, hi, lo));
        if is_free(chunks, lo) {
            assert(lone(chunks, lo));
        }
        if ends_free(chunks, hi) {
            let t = self.heap().free_below(hi);
            assert(chunks.dom().contains(t) && chunks[t].used is None && chunks[t].acme == hi);
            assert(chunk_fits(lo, hi, t, chunks[t]));
            assert(is_free(chunks, t));
        }
    }

    /// Where a smaller arena that covers all that is allocated starts and ends.
    pub(crate) proof fn lemma_narrower(&self, arena: Span, base: i64, acme: i64)
        requires
            self.wf(),
            self.alloc_base < self.alloc_acme,
            self.arena.covers(arena),
            arena.inward() == (Span::Sized { base, acme }),
            arena.inward().covers(self.heap().allocated_span()),
            acme - base >= 24,
        ensures
            address(acme) - address(base) == acme - base,
            address(base) % 8 == 0,
            address(acme) % 8 == 0,
            self.alloc_base <= address(base) + 24,
            address(acme) <= self.alloc_acme + 24,
            self.heap().allocated_base() < self.heap().allocated_acme() ==> address(base)
                <= self.heap().allocated_base() && self.heap().allocated_acme() <= address(acme),
    {
        reveal(usable);
        reveal(fills);
        self.lemma_laid_out();
        self.lemma_allocated_bounds();
        lemma_inward_within(self.arena, arena);
        let (b0, a0) = (self.arena.inward()->base, self.arena.inward()->acme);
        lemma_signed(b0, a0, self.heap().allocated_base());
        lemma_signed(b0, a0, self.heap().allocated_acme());
    }

    /// Cuts the arena to `new_arena`.
    pub fn truncate(&mut self, new_arena: Span)
        requires
            old(self).wf(),
            old(self).heap().arena.covers(new_arena),
            new_arena.inward().covers(old(self).heap().allocated_span()),
        ensures
            final(self).wf(),
            final(self).heap() == old(self).heap().narrowed(new_arena),
            final(self).top_free() == ends_free(
                final(self).heap().chunks,
                final(self).heap().acme,
            ),
            final(self).bins() == old(self).bins(),
            final(self).handler() == old(self).handler(),
            kept(
                old(self).heap(),
                old(self).words(),
                final(self).heap(),
                final(self).words(),
                old(self).bins(),
            ),
            forall|ptr: int, layout: Layout| #[trigger]
                old(self).heap().allocated(ptr, layout) ==> same_allocation(
                    *old(self),
                    *final(self),
                    ptr,
                    layout,
                ),
            forall|ptr: int, layout: Layout| #[trigger]
                final(self).heap().allocated(ptr, layout) ==> old(self).heap().allocated(
                    ptr,
                    layout,
                ),
    {
        let ghost s0 = *self;
        proof {
            reveal(usable);
            s0.lemma_laid_out();
            s0.lemma_has_bins();
            lemma_part_usable(
                self.memory.words().dom(),
                self.llists as int,
                self.arena,
                new_arena,
            );
            if self.alloc_base < self.alloc_acme {
                assert(self.chunks@.dom().contains(self.alloc_base as int));
            }
        }
        if self.alloc_acme - self.alloc_base < MIN_CHUNK_SIZE {
            // there is neither free nor reserved memory
            self.init(new_arena);
            proof {
                self.lemma_top_mark();
                lemma_same_reserved(s0, *self);
            }
            return ;
        }
        match new_arena.word_align_inward() {
            Span::Sized { base, acme } => {
                if to_address(acme) - to_address(base) >= MIN_CHUNK_SIZE {
                    self.trim(new_arena, to_address(base), to_address(acme));
                    return ;
                }
            },
            Span::Empty => {},
        }
        proof {
            s0.lemma_nothing_left(new_arena);
        }
        self.init(new_arena);
        proof {
            self.lemma_top_mark();
            lemma_same_reserved(s0, *self);
        }
    }

    /// A heap whose allocations fit in an arena without a heap has none.
    pub(crate) proof fn lemma_nothing_left(&self, arena: Span)
        requires
            self.wf(),
            self.alloc_base < self.alloc_acme,
            self.arena.covers(arena),
            arena.inward().covers(self.heap().allocated_span()),
            arena.inward() matches Span::Sized { base, acme } ==> acme - base < 24,
        ensures
            forall|b: int| #[trigger] self.chunks@.dom().contains(b) ==> self.chunks@[b].used is None,
    {
        reveal(usable);
        reveal(fills);
        self.lemma_laid_out();
        self.lemma_allocated_bounds();
        let (b0, a0) = (self.arena.inward()->base, self.arena.inward()->acme);
        lemma_signed(b0, a0, self.heap().allocated_base());
        lemma_signed(b0, a0, self.heap().allocated_acme());
        assert forall|b: int| #[trigger]
            self.chunks@.dom().contains(b) implies self.chunks@[b].used is None by {
            if self.chunks@[b].used is Some {
                self.lemma_allocated_within(b);
            }
        }
    }

    /// Cuts the heap to what lies between `base` and `acme`.
    fn trim(&mut self, new_arena: Span, new_alloc_base: u64, new_alloc_acme: u64)
        requires
            old(self).wf(),
            old(self).alloc_base < old(self).alloc_acme,
            old(self).arena.covers(new_arena),
            new_arena.inward().covers(old(self).heap().allocated_span()),
            new_arena.inward() matches Span::Sized { base, acme } && acme - base >= 24 && address(
                base,
            ) == new_alloc_base && address(acme) == new_alloc_acme,
            usable(old(self).memory.words().dom(), old(self).llists as int, new_arena),
        ensures
            final(self).wf(),
            final(self).heap() == (Heap { arena: new_arena, ..old(self).heap() }).cut_above(
                new_alloc_acme as int,
            ).cut_below(new_alloc_base as int),
            final(self).top_free() == ends_free(
                final(self).heap().chunks,
                final(self).heap().acme,
            ),
            final(self).llists == old(self).llists,
            final(self).oom_handler == old(self).oom_handler,
            kept(
                old(self).heap(),
                old(self).words(),
                final(self).heap(),
                final(self).words(),
                old(self).bins(),
            ),
            forall|ptr: int, layout: Layout| #[trigger]
                old(self).heap().allocated(ptr, layout) ==> same_allocation(
                    *old(self),
                    *final(self),
                    ptr,
                    layout,
                ),
            forall|ptr: int, layout: Layout| #[trigger]
                final(self).heap().allocated(ptr, layout) ==> old(self).heap().allocated(
                    ptr,
                    layout,
                ),
    {
        let ghost s0 = *self;
        proof {
            s0.lemma_laid_out();
            s0.lemma_allocated_bounds();
            s0.lemma_narrower(new_arena, new_arena.inward()->base, new_arena.inward()->acme);
        }
        self.arena = new_arena;
        let ghost s1 = *self;
        proof {
            Self::lemma_new_bounds(s0, s1);
        }
        self.lower_acme(new_alloc_acme);
        let ghost s2 = *self;
        if self.alloc_base < self.alloc_acme {
            self.raise_base(new_alloc_base);
        }
        proof {
            reveal(fills);
            lemma_kept_join(
                s1.heap(),
                s1.words(),
                s2.heap(),
                s2.words(),
                self.heap(),
                self.words(),
                s0.bins(),
            );
            lemma_same_reserved(s0, *self);
            self.lemma_top_mark();
        }
    }
}

} // verus!
