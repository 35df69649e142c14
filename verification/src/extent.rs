use crate::bucket::g_of_size;
use crate::chunk::FreeChunk;
use crate::layout::Layout;
use crate::memory::Memory;
use crate::model::{
    chunk_fits, ends_free, followed, in_free, is_free, lone, placed, same_outside, Chunk, Heap, Use,
};
use crate::oom::same_allocation;
use crate::span::{address, Span};
use crate::tag::{lemma_tag_word, Tag};
use crate::talloc::{
    frame, frame_but, frees_within, kept, lemma_not_in_free, reaches, tag_ok, Talloc,
};
use crate::word::{ge_min_size_apart, MIN_CHUNK_SIZE};
use vstd::prelude::*;

verus! {

impl Heap {
    /// The heap with its end moved up to `acme`. What is gained becomes part of the
    /// free chunk at the top; if there is none, it becomes a chunk if it is enough
    /// for more than the smallest.
    pub open spec fn raised(self, acme: int) -> Heap {
        if ends_free(self.chunks, self.acme) {
            let top: int = self.free_below(self.acme);
            Heap { acme, ..self.strike(top).record(top, acme) }
        } else if acme - self.acme > 24 {
            Heap { acme, ..self.record(self.acme, acme) }
        } else {
            self
        }
    }

    /// The heap with its end moved down to `acme`, which must lie in the free chunk at
    /// the top, if it lies below. What is too small for a chunk is left out.
    pub open spec fn cut_above(self, acme: int) -> Heap {
        let top: int = self.free_below(self.acme);
        if self.acme <= acme {
            self
        } else if acme - top >= 24 {
            Heap { acme, ..self.strike(top).record(top, acme) }
        } else {
            Heap { acme: top, ..self.strike(top) }
        }
    }

    /// The heap with its start moved up to `base`, in the same way.
    pub open spec fn cut_below(self, base: int) -> Heap {
        let e: int = self.chunks[self.base].acme;
        if base <= self.base {
            self
        } else if e - base >= 24 {
            Heap { base, ..self.strike(self.base).record(base, e) }
        } else {
            Heap { base: e, ..self.strike(self.base) }
        }
    }

    /// The heap with its start moved down to `base`, in the same way.
    pub open spec fn lowered(self, base: int) -> Heap {
        if is_free(self.chunks, self.base) {
            let e: int = self.chunks[self.base].acme;
            Heap { base, ..self.strike(self.base).record(base, e) }
        } else if self.base - base > 24 {
            Heap { base, ..self.record(base, self.base) }
        } else {
            self
        }
    }
}

impl Heap {
    /// The heap after the arena has been extended to `arena`.
    pub open spec fn widened(self, arena: Span) -> Heap {
        if self.acme - self.base < 24 {
            Heap::initial(arena)
        } else {
            match arena.inward() {
                Span::Empty => self,
                Span::Sized { base, acme } => (Heap { arena, ..self }).raised(address(acme)).lowered(
                    address(base),
                ),
            }
        }
    }

    /// The heap after the arena has been cut to `arena`.
    pub open spec fn narrowed(self, arena: Span) -> Heap {
        if self.acme - self.base < 24 {
            Heap::initial(arena)
        } else {
            match arena.inward() {
                Span::Empty => Heap::initial(arena),
                Span::Sized { base, acme } => if acme - base >= 24 {
                    (Heap { arena, ..self }).cut_above(address(acme)).cut_below(address(base))
                } else {
                    Heap::initial(arena)
                },
            }
        }
    }

    /// The two heaps hold the same allocations, in the same chunks.
    pub open spec fn same_reserved(self, other: Heap) -> bool {
        forall|b: int|
            #![trigger self.chunks.dom().contains(b)]
            #![trigger other.chunks.dom().contains(b)]
            self.chunks.dom().contains(b) && self.chunks[b].used is Some
                || other.chunks.dom().contains(b) && other.chunks[b].used is Some
                ==> self.chunks.dom().contains(b) && other.chunks.dom().contains(b)
                && self.chunks[b] == other.chunks[b]
    }
}

/// What two operations leave alone.
pub(crate) proof fn lemma_kept_join(
    h0: Heap,
    m0: Map<int, u64>,
    h1: Heap,
    m1: Map<int, u64>,
    h2: Heap,
    m2: Map<int, u64>,
    llists: int,
)
    requires
        kept(h0, m0, h1, m1, llists),
        kept(h1, m1, h2, m2, llists),
        h0.same_reserved(h1),
        h0.base <= h1.base && h1.acme <= h0.acme || h2.base <= h1.base && h1.acme <= h2.acme,
    ensures
        kept(h0, m0, h2, m2, llists),
{
    assert forall|a: int|
        !(llists <= a < llists + 1024) && !(h0.base <= a < h0.acme) && !(h2.base <= a
            < h2.acme) implies #[trigger] m2[a] == m0[a] by {
        assert(m1[a] == m0[a]);
    }
    assert forall|b: int, a: int|
        #![trigger h0.chunks.dom().contains(b), m2[a]]
        h0.chunks.dom().contains(b) && h2.chunks.dom().contains(b) && h0.chunks[b].used is Some
            && h2.chunks[b].used is Some && h0.chunks[b].used->0.ptr == h2.chunks[b].used->0.ptr
            && h0.chunks[b].used->0.ptr <= a < h0.chunks[b].acme && a
            < h2.chunks[b].acme implies m2[a] == m0[a] by {
        assert(h1.chunks.dom().contains(b));
        assert(m1[a] == m0[a]);
    }
}

/// Operations that leave the reserved chunks alone leave the allocations alone.
pub(crate) proof fn lemma_same_reserved<M: Memory, H>(before: Talloc<M, H>, after: Talloc<M, H>)
    requires
        before.recorded(),
        kept(before.heap(), before.words(), after.heap(), after.words(), before.bins()),
        before.heap().same_reserved(after.heap()),
    ensures
        forall|ptr: int, layout: Layout| #[trigger]
            before.heap().allocated(ptr, layout) ==> same_allocation(before, after, ptr, layout),
        forall|ptr: int, layout: Layout| #[trigger]
            after.heap().allocated(ptr, layout) ==> before.heap().allocated(ptr, layout),
{
    before.lemma_laid_out();
    assert forall|ptr: int, layout: Layout| #[trigger]
        before.heap().allocated(ptr, layout) implies same_allocation(before, after, ptr, layout) by {
        before.lemma_locate(ptr, layout);
        let b = before.heap().chunk_of(ptr);
        assert(before.heap().chunks.dom().contains(b));
        assert(after.heap().chunks.dom().contains(b));
    }
    assert forall|ptr: int, layout: Layout| #[trigger]
        after.heap().allocated(ptr, layout) implies before.heap().allocated(ptr, layout) by {
        let b = choose|b: int| #[trigger]
            after.heap().chunks.dom().contains(b) && after.heap().chunks[b].used == Some(
                Use { ptr, layout },
            );
        assert(before.heap().chunks.dom().contains(b));
    }
}

/// Two steps on the record.
proof fn lemma_frame_join(
    m: Map<int, u64>,
    m1: Map<int, u64>,
    m2: Map<int, u64>,
    llists: int,
    first: Map<int, Chunk>,
    second: Map<int, Chunk>,
    big: Map<int, Chunk>,
)
    requires
        frame(m, m1, llists, first),
        frame(m1, m2, llists, second),
        frees_within(first, big),
        frees_within(second, big),
    ensures
        frame(m, m2, llists, big),
{
    assert forall|a: int|
        !(llists <= a < llists + 1024) && !in_free(big, a) implies #[trigger] m2[a] == m[a] by {
        assert(m1[a] == m[a]);
    }
}

/// A free chunk that gets larger still covers what it did.
proof fn lemma_frees_grow(chunks: Map<int, Chunk>, big: Map<int, Chunk>, old_b: int, b: int, acme: int)
    requires
        big == chunks.remove(old_b).insert(b, Chunk { acme, used: None }),
        is_free(chunks, old_b),
        b <= old_b,
        chunks[old_b].acme <= acme,
        b < old_b ==> !chunks.dom().contains(b),
    ensures
        frees_within(chunks, big),
{
    assert forall|a: int| #[trigger] in_free(chunks, a) implies in_free(big, a) by {
        let c = choose|c: int| #[trigger]
            chunks.dom().contains(c) && chunks[c].used is None && c <= a < chunks[c].acme;
        if c == old_b {
            assert(big.dom().contains(b));
        } else {
            assert(big.dom().contains(c));
        }
    }
}

impl<M: Memory, H> Talloc<M, H> {
    /// The record does not depend on the bounds, as long as they hold the chunks.
    pub(crate) proof fn lemma_new_bounds(before: Self, after: Self)
        requires
            before.recorded(),
            after == (Talloc {
                arena: after.arena,
                alloc_base: after.alloc_base,
                alloc_acme: after.alloc_acme,
                is_top_free: after.is_top_free,
                ..before
            }),
            after.alloc_base <= after.alloc_acme,
            after.alloc_base % 8 == 0,
            after.alloc_acme % 8 == 0,
            placed(before.chunks@, after.alloc_base as int, after.alloc_acme as int),
            reaches(before.memory.words().dom(), after.alloc_base as int, after.alloc_acme as int),
            after.alloc_base < after.alloc_acme ==> after.alloc_acme <= after.llists || after.llists
                + 1024 <= after.alloc_base,
        ensures
            after.recorded(),
    {
        reveal(Talloc::recorded);
    }

    /// With a free chunk at `x` that ends higher than all else did, the chunks are
    /// in order.
    proof fn lemma_raised(s0: Self, after: Self, x: int)
        requires
            s0.intact(),
            s0.alloc_base < s0.alloc_acme <= after.alloc_acme,
            after.recorded(),
            after.alloc_base == s0.alloc_base,
            after.llists == s0.llists,
            after.is_top_free,
            if s0.is_top_free {
                is_free(s0.chunks@, x) && s0.chunks@[x].acme == s0.alloc_acme
            } else {
                x == s0.alloc_acme
            },
            x < after.alloc_acme,
            after.chunks@ == s0.chunks@.insert(
                x,
                Chunk { acme: after.alloc_acme as int, used: None },
            ),
            frame(
                s0.memory.words(),
                after.memory.words(),
                s0.llists as int,
                after.chunks@,
            ),
        ensures
            after.intact(),
            kept(s0.heap(), s0.words(), after.heap(), after.words(), s0.bins()),
    {
        let c0 = s0.chunks@;
        let c4 = after.chunks@;
        let y = after.alloc_acme as int;
        s0.lemma_laid_out();
        after.lemma_laid_out();
        assert(c0.dom().contains(s0.alloc_base as int));
        assert(c4.dom().contains(x));
        assert(is_free(c4, x));
        assert(ends_free(c4, y));
        assert(!c4.dom().contains(y));
        assert(lone(c4, x));
        if ends_free(c0, x) && s0.is_top_free {
            let c = choose|c: int| #[trigger]
                c0.dom().contains(c) && c0[c].used is None && c0[c].acme == x;
            assert(is_free(c0, c));
            assert(lone(c0, c));
        }
        assert(!in_free(c4, y));
        Self::lemma_replace(s0, after, x, y, y);
        Self::lemma_kept(s0, after, c4, y, y);
    }

    /// Moves the end of the heap up to `acme`.
    pub(crate) fn raise(&mut self, acme: u64)
        requires
            old(self).intact(),
            old(self).alloc_base < old(self).alloc_acme <= acme,
            acme % 8 == 0,
            reaches(old(self).words().dom(), old(self).alloc_base as int, acme as int),
            acme <= old(self).llists || old(self).llists + 1024 <= old(self).alloc_base,
        ensures
            final(self).intact(),
            final(self).heap() == old(self).heap().raised(acme as int),
            old(self).heap().same_reserved(final(self).heap()),
            final(self).llists == old(self).llists,
            final(self).oom_handler == old(self).oom_handler,
            kept(
                old(self).heap(),
                old(self).words(),
                final(self).heap(),
                final(self).words(),
                old(self).bins(),
            ),
    {
        let ghost s0 = *self;
        let ghost c0 = self.chunks@;
        proof {
            s0.lemma_laid_out();
            assert(c0.dom().contains(self.alloc_base as int));
            assert(chunk_fits(
                self.alloc_base as int,
                self.alloc_acme as int,
                self.alloc_base as int,
                c0[self.alloc_base as int],
            ));
        }
        let old_alloc_acme: u64 = self.alloc_acme;
        if self.is_top_free {
            let top_chunk = FreeChunk(self.top_free_chunk());
            let ghost x = top_chunk.0 as int;
            self.alloc_acme = acme;
            proof {
                Self::lemma_new_bounds(s0, *self);
            }
            self.remove_chunk_from_record(
                top_chunk.node_ptr(),
                g_of_size(old_alloc_acme - top_chunk.ptr()),
            );
            let ghost s1 = *self;
            self.add_chunk_to_record(top_chunk.ptr(), acme);
            proof {
                assert(self.chunks@ =~= c0.insert(x, Chunk { acme: acme as int, used: None }));
                lemma_frees_grow(c0, self.chunks@, x, x, acme as int);
                lemma_frame_join(
                    s0.memory.words(),
                    s1.memory.words(),
                    self.memory.words(),
                    self.llists as int,
                    c0,
                    self.chunks@,
                    self.chunks@,
                );
                Self::lemma_raised(s0, *self, x);
            }
        } else if acme - old_alloc_acme > MIN_CHUNK_SIZE {
            self.alloc_acme = acme;
            proof {
                Self::lemma_new_bounds(s0, *self);
            }
            self.add_chunk_to_record(old_alloc_acme, acme);
            let ghost s1 = *self;
            self.is_top_free = true;
            proof {
                Self::lemma_same_record(s1, *self);
                Self::lemma_raised(s0, *self, old_alloc_acme as int);
            }
        }
    }

    /// With a free chunk from a new start of the heap up to `y`, the chunks are in
    /// order.
    proof fn lemma_lowered(s0: Self, after: Self, y: int)
        requires
            s0.intact(),
            s0.alloc_base < s0.alloc_acme,
            after.recorded(),
            after.alloc_base <= s0.alloc_base,
            after.alloc_base < y,
            after.alloc_acme == s0.alloc_acme,
            after.llists == s0.llists,
            after.is_top_free == s0.is_top_free,
            if is_free(s0.chunks@, s0.alloc_base as int) {
                y == s0.chunks@[s0.alloc_base as int].acme && after.chunks@ == s0.chunks@.remove(
                    s0.alloc_base as int,
                ).insert(after.alloc_base as int, Chunk { acme: y, used: None })
            } else {
                y == s0.alloc_base && after.chunks@ == s0.chunks@.insert(
                    after.alloc_base as int,
                    Chunk { acme: y, used: None },
                )
            },
            y < s0.alloc_acme ==> after.chunks@.dom().contains(y) && tag_ok(
                after.memory.words(),
                after.chunks@,
                y,
            ),
            frame_but(
                s0.memory.words(),
                after.memory.words(),
                s0.llists as int,
                after.chunks@,
                y,
                y,
            ),
            y == s0.alloc_acme && !(s0.llists <= y < s0.llists + 1024) ==> after.memory.words()[y]
                == s0.memory.words()[y],
        ensures
            after.intact(),
            kept(s0.heap(), s0.words(), after.heap(), after.words(), s0.bins()),
    {
        let c0 = s0.chunks@;
        let c4 = after.chunks@;
        let x = after.alloc_base as int;
        let lo = s0.alloc_base as int;
        s0.lemma_laid_out();
        after.lemma_laid_out();
        assert(c0.dom().contains(lo));
        assert(chunk_fits(lo, s0.alloc_acme as int, lo, c0[lo]));
        assert(followed(c0, s0.alloc_acme as int, lo));
        assert(c4.dom().contains(x));
        assert(is_free(c4, x));
        assert(ends_free(c4, y));
        if is_free(c0, lo) {
            assert(lone(c0, lo));
            assert(ends_free(c0, y));
        }
        assert(lone(c4, x));
        assert(!ends_free(c0, x));
        assert(same_outside(c0, c4, x, y));
        Self::lemma_replace(s0, after, x, y, y);
        Self::lemma_kept(s0, after, c4, y, y);
    }

    /// Moves the start of the heap down to `base`.
    pub(crate) fn lower(&mut self, base: u64)
        requires
            old(self).intact(),
            0 < base <= old(self).alloc_base < old(self).alloc_acme,
            base % 8 == 0,
            reaches(old(self).words().dom(), base as int, old(self).alloc_acme as int),
            old(self).alloc_acme <= old(self).llists || old(self).llists + 1024 <= base,
        ensures
            final(self).intact(),
            final(self).heap() == old(self).heap().lowered(base as int),
            old(self).heap().same_reserved(final(self).heap()),
            final(self).llists == old(self).llists,
            final(self).oom_handler == old(self).oom_handler,
            kept(
                old(self).heap(),
                old(self).words(),
                final(self).heap(),
                final(self).words(),
                old(self).bins(),
            ),
    {
        let ghost s0 = *self;
        let ghost c0 = self.chunks@;
        let ghost m0 = self.memory.words();
        let old_alloc_base: u64 = self.alloc_base;
        proof {
            s0.lemma_laid_out();
            assert(c0.dom().contains(old_alloc_base as int));
            assert(tag_ok(m0, c0, old_alloc_base as int));
            assert(followed(c0, s0.alloc_acme as int, old_alloc_base as int));
        }
        match self.base_free_acme() {
            Some(bottom_acme) => {
                let bottom_chunk = FreeChunk(old_alloc_base);
                let ghost y = bottom_acme as int;
                self.alloc_base = base;
                proof {
                    Self::lemma_new_bounds(s0, *self);
                }
                self.remove_chunk_from_record(
                    bottom_chunk.node_ptr(),
                    g_of_size(bottom_acme - bottom_chunk.ptr()),
                );
                let ghost s1 = *self;
                self.add_chunk_to_record(base, bottom_acme);
                proof {
                    let c4 = self.chunks@;
                    self.lemma_laid_out();
                    lemma_frees_grow(c0, c4, old_alloc_base as int, base as int, y);
                    lemma_frame_join(
                        m0,
                        s1.memory.words(),
                        self.memory.words(),
                        self.llists as int,
                        c0,
                        c4,
                        c4,
                    );
                    if y < s0.alloc_acme {
                        assert(c4.dom().contains(base as int) && c4[base as int].acme == y);
                        s0.lemma_above_base(*self, y);
                    } else {
                        assert(!in_free(c4, y));
                    }
                    Self::lemma_lowered(s0, *self, y);
                }
            },
            None => {
                if old_alloc_base - base > MIN_CHUNK_SIZE {
                    let ghost y = old_alloc_base as int;
                    self.alloc_base = base;
                    proof {
                        Self::lemma_new_bounds(s0, *self);
                    }
                    self.add_chunk_to_record(base, old_alloc_base);
                    let ghost s1 = *self;
                    proof {
                        s1.lemma_laid_out();
                        lemma_not_in_free(s1.chunks@, y);
                        lemma_tag_word(m0[y], c0[y].acme, ends_free(c0, y));
                        assert(chunk_fits(y, s0.alloc_acme as int, y, c0[y]));
                        assert(s1.memory.words()[y] == m0[y]);
                        assert(s1.memory.words()[c0[y].used->0.ptr - 8] == m0[c0[y].used->0.ptr
                            - 8]);
                        assert(s1.chunks@.dom().contains(base as int));
                        assert(ends_free(s1.chunks@, y));
                    }
                    Tag::set_low_free(&mut self.memory, old_alloc_base);
                    proof {
                        assert(self.memory.words().dom() =~= s1.memory.words().dom());
                        Self::lemma_recorded(s1, *self);
                        Self::lemma_lowered(s0, *self, y);
                    }
                }
            },
        }
    }

    /// The chunk above the free one at the bottom keeps its tag while that one changes.
    proof fn lemma_above_base(&self, after: Self, y: int)
        requires
            self.intact(),
            self.alloc_base < self.alloc_acme,
            is_free(self.chunks@, self.alloc_base as int),
            self.chunks@[self.alloc_base as int].acme == y,
            y < self.alloc_acme,
            after.recorded(),
            after.llists == self.llists,
            after.chunks@.dom().contains(y),
            after.chunks@[y] == self.chunks@[y],
            ends_free(after.chunks@, y),
            frame(
                self.memory.words(),
                after.memory.words(),
                self.llists as int,
                after.chunks@,
            ) || frame(
                self.memory.words(),
                after.memory.words(),
                self.llists as int,
                self.chunks@,
            ),
        ensures
            tag_ok(after.memory.words(), after.chunks@, y),
    {
        let c0 = self.chunks@;
        let lo = self.alloc_base as int;
        self.lemma_laid_out();
        after.lemma_laid_out();
        assert(followed(c0, self.alloc_acme as int, lo));
        assert(lone(c0, lo));
        assert(tag_ok(self.memory.words(), c0, y));
        assert(ends_free(c0, y));
        assert(chunk_fits(lo, self.alloc_acme as int, y, c0[y]));
        lemma_not_in_free(after.chunks@, y);
        lemma_not_in_free(c0, y);
        let u = c0[y].used->0;
        assert(!in_free(c0, y));
        assert(!in_free(c0, u.ptr - 8));
        assert(!in_free(after.chunks@, y));
        assert(!in_free(after.chunks@, u.ptr - 8));
        assert(after.memory.words()[y] == self.memory.words()[y]);
        assert(after.memory.words()[u.ptr - 8] == self.memory.words()[u.ptr - 8]);
    }

    /// With the free chunk at the top made smaller or taken away, the chunks are in
    /// order.
    proof fn lemma_cut_above(s0: Self, after: Self, x: int)
        requires
            s0.intact(),
            s0.alloc_base < s0.alloc_acme,
            is_free(s0.chunks@, x),
            s0.chunks@[x].acme == s0.alloc_acme,
            after.recorded(),
            after.alloc_base == s0.alloc_base,
            after.alloc_acme <= s0.alloc_acme,
            after.llists == s0.llists,
            if after.is_top_free {
                x < after.alloc_acme && after.chunks@ == s0.chunks@.remove(x).insert(
                    x,
                    Chunk { acme: after.alloc_acme as int, used: None },
                )
            } else {
                x == after.alloc_acme && after.chunks@ == s0.chunks@.remove(x)
            },
            frame(s0.memory.words(), after.memory.words(), s0.llists as int, s0.chunks@),
        ensures
            after.intact(),
            kept(s0.heap(), s0.words(), after.heap(), after.words(), s0.bins()),
    {
        let c0 = s0.chunks@;
        let c4 = after.chunks@;
        let y = s0.alloc_acme as int;
        let e = after.alloc_acme as int;
        s0.lemma_laid_out();
        after.lemma_laid_out();
        assert(c0.dom().contains(s0.alloc_base as int));
        assert(!c0.dom().contains(y));
        if ends_free(c0, x) {
            let c = choose|c: int| #[trigger]
                c0.dom().contains(c) && c0[c].used is None && c0[c].acme == x;
            assert(is_free(c0, c));
            assert(lone(c0, c));
        }
        assert(!in_free(c0, y));
        if after.is_top_free {
            assert(c4.dom().contains(x));
            assert(is_free(c4, x));
            assert(ends_free(c4, e));
            assert(lone(c4, x));
        } else {
            assert(!ends_free(c4, x)) by {
                if ends_free(c4, x) {
                    let c = choose|c: int| #[trigger]
                        c4.dom().contains(c) && c4[c].used is None && c4[c].acme == x;
                    assert(c0.dom().contains(c));
                    assert(ends_free(c0, x));
                }
            }
        }
        assert(same_outside(c0, c4, x, y));
        Self::lemma_replace(s0, after, x, y, y);
        Self::lemma_kept(s0, after, c0, y, y);
    }

    /// Moves the end of the heap down to `acme`.
    pub(crate) fn lower_acme(&mut self, acme: u64)
        requires
            old(self).intact(),
            old(self).alloc_base < old(self).alloc_acme,
            acme % 8 == 0,
            acme < old(self).alloc_acme ==> ends_free(
                old(self).chunks@,
                old(self).alloc_acme as int,
            ) && old(self).heap().free_below(old(self).alloc_acme as int) <= acme,
        ensures
            final(self).intact(),
            final(self).heap() == old(self).heap().cut_above(acme as int),
            final(self).alloc_base >= final(self).alloc_acme ==> !final(self).is_top_free,
            old(self).heap().same_reserved(final(self).heap()),
            final(self).llists == old(self).llists,
            final(self).oom_handler == old(self).oom_handler,
            kept(
                old(self).heap(),
                old(self).words(),
                final(self).heap(),
                final(self).words(),
                old(self).bins(),
            ),
    {
        let ghost s0 = *self;
        let ghost c0 = self.chunks@;
        if acme < self.alloc_acme {
            let top_free_chunk = FreeChunk(self.top_free_chunk());
            let ghost x = top_free_chunk.0 as int;
            proof {
                s0.lemma_laid_out();
                assert(c0.dom().contains(self.alloc_base as int));
                assert(chunk_fits(s0.alloc_base as int, s0.alloc_acme as int, x, c0[x]));
            }
            self.remove_chunk_from_record(
                top_free_chunk.node_ptr(),
                g_of_size(self.alloc_acme - top_free_chunk.ptr()),
            );
            let ghost s1 = *self;
            proof {
                s1.lemma_laid_out();
                assert forall|c: int| #[trigger] s1.chunks@.dom().contains(c) implies s1.chunks@[c].acme
                    <= x by {
                    assert(c0.dom().contains(c));
                    assert(chunk_fits(s0.alloc_base as int, s0.alloc_acme as int, c, c0[c]));
                }
            }
            if ge_min_size_apart(top_free_chunk.ptr(), acme) {
                self.alloc_acme = acme;
                let ghost s2 = *self;
                proof {
                    Self::lemma_new_bounds(s1, s2);
                }
                self.add_chunk_to_record(top_free_chunk.ptr(), acme);
                proof {
                    assert(frees_within(self.chunks@, c0)) by {
                        self.lemma_frees_shrink(c0, x, x, acme as int);
                    }
                    lemma_frame_join(
                        s0.memory.words(),
                        s1.memory.words(),
                        self.memory.words(),
                        self.llists as int,
                        c0,
                        self.chunks@,
                        c0,
                    );
                    Self::lemma_cut_above(s0, *self, x);
                }
            } else {
                self.alloc_acme = top_free_chunk.ptr();
                self.is_top_free = false;
                proof {
                    Self::lemma_new_bounds(s1, *self);
                    Self::lemma_cut_above(s0, *self, x);
                }
            }
        }
    }

    /// A free chunk that gets smaller covers no more than it did.
    proof fn lemma_frees_shrink(&self, chunks: Map<int, Chunk>, old_b: int, b: int, acme: int)
        requires
            self.chunks@ == chunks.remove(old_b).insert(b, Chunk { acme, used: None }),
            is_free(chunks, old_b),
            old_b <= b,
            acme <= chunks[old_b].acme,
        ensures
            frees_within(self.chunks@, chunks),
    {
        let small = self.chunks@;
        assert forall|a: int| #[trigger] in_free(small, a) implies in_free(chunks, a) by {
            let c = choose|c: int| #[trigger]
                small.dom().contains(c) && small[c].used is None && c <= a < small[c].acme;
            if c == b {
                assert(chunks.dom().contains(old_b));
            } else {
                assert(chunks.dom().contains(c));
            }
        }
    }

    /// With the free chunk at the bottom, which ends at `y`, made smaller or taken
    /// away, the chunks are in order.
    proof fn lemma_cut_below(s0: Self, after: Self, y: int)
        requires
            s0.intact(),
            s0.alloc_base < s0.alloc_acme,
            is_free(s0.chunks@, s0.alloc_base as int),
            s0.chunks@[s0.alloc_base as int].acme == y,
            after.recorded(),
            s0.alloc_base < after.alloc_base <= y,
            after.alloc_acme == s0.alloc_acme,
            after.llists == s0.llists,
            after.chunks@ == if after.alloc_base < y {
                s0.chunks@.remove(s0.alloc_base as int).insert(
                    after.alloc_base as int,
                    Chunk { acme: y, used: None },
                )
            } else {
                s0.chunks@.remove(s0.alloc_base as int)
            },
            after.alloc_base < after.alloc_acme ==> after.is_top_free == s0.is_top_free,
            y < s0.alloc_acme ==> s0.chunks@.dom().contains(y) && tag_ok(
                after.memory.words(),
                after.chunks@,
                y,
            ),
            frame_but(
                s0.memory.words(),
                after.memory.words(),
                s0.llists as int,
                s0.chunks@,
                y,
                y,
            ),
            y == s0.alloc_acme && !(s0.llists <= y < s0.llists + 1024) ==> after.memory.words()[y]
                == s0.memory.words()[y],
        ensures
            after.intact(),
            kept(s0.heap(), s0.words(), after.heap(), after.words(), s0.bins()),
    {
        let c0 = s0.chunks@;
        let c4 = after.chunks@;
        let x = s0.alloc_base as int;
        let lo = after.alloc_base as int;
        s0.lemma_laid_out();
        after.lemma_laid_out();
        assert(c0.dom().contains(x));
        assert(chunk_fits(x, s0.alloc_acme as int, x, c0[x]));
        assert(followed(c0, s0.alloc_acme as int, x));
        assert(lone(c0, x));
        assert(ends_free(c0, y));
        assert(!ends_free(c0, x));
        if lo < y {
            assert(c4.dom().contains(lo));
            assert(is_free(c4, lo));
            assert(lone(c4, lo));
            assert(ends_free(c4, y));
        } else if y < s0.alloc_acme {
            assert(c4.dom().contains(y));
        }
        assert(!is_free(c4, x));
        assert(same_outside(c0, c4, x, y));
        Self::lemma_replace(s0, after, x, y, y);
        Self::lemma_kept(s0, after, c0, y, y);
    }

    /// Moves the start of the heap up to `base`.
    pub(crate) fn raise_base(&mut self, base: u64)
        requires
            old(self).intact(),
            old(self).alloc_base < old(self).alloc_acme,
            base % 8 == 0,
            old(self).alloc_base < base ==> is_free(
                old(self).chunks@,
                old(self).alloc_base as int,
            ) && base <= old(self).chunks@[old(self).alloc_base as int].acme,
        ensures
            final(self).intact(),
            final(self).heap() == old(self).heap().cut_below(base as int),
            final(self).alloc_base >= final(self).alloc_acme ==> !final(self).is_top_free,
            old(self).heap().same_reserved(final(self).heap()),
            final(self).llists == old(self).llists,
            final(self).oom_handler == old(self).oom_handler,
            kept(
                old(self).heap(),
                old(self).words(),
                final(self).heap(),
                final(self).words(),
                old(self).bins(),
            ),
    {
        let ghost s0 = *self;
        let ghost c0 = self.chunks@;
        let ghost m0 = self.memory.words();
        let old_base: u64 = self.alloc_base;
        if old_base < base {
            let base_free_chunk = FreeChunk(old_base);
            proof {
                self.lemma_sizes(old_base as int);
                s0.lemma_laid_out();
                assert(followed(c0, s0.alloc_acme as int, old_base as int));
                assert(lone(c0, old_base as int));
            }
            let base_free_size: u64 = self.memory.read(base_free_chunk.size_ptr());
            let base_free_chunk_acme: u64 = old_base + base_free_size;
            let ghost y = base_free_chunk_acme as int;
            self.remove_chunk_from_record(base_free_chunk.node_ptr(), g_of_size(base_free_size));
            let ghost s1 = *self;
            proof {
                s1.lemma_laid_out();
                assert forall|c: int| #[trigger] s1.chunks@.dom().contains(c) implies y <= c by {
                    assert(c0.dom().contains(c));
                    assert(chunk_fits(s0.alloc_base as int, s0.alloc_acme as int, c, c0[c]));
                }
            }
            if ge_min_size_apart(base, base_free_chunk_acme) {
                self.alloc_base = base;
                proof {
                    Self::lemma_new_bounds(s1, *self);
                }
                self.add_chunk_to_record(base, base_free_chunk_acme);
                proof {
                    let c4 = self.chunks@;
                    self.lemma_laid_out();
                    self.lemma_frees_shrink(c0, old_base as int, base as int, y);
                    lemma_frame_join(
                        m0,
                        s1.memory.words(),
                        self.memory.words(),
                        self.llists as int,
                        c0,
                        c4,
                        c0,
                    );
                    if y < s0.alloc_acme {
                        assert(c4.dom().contains(base as int) && c4[base as int].acme == y);
                        s0.lemma_above_base(*self, y);
                    } else {
                        assert(!in_free(c0, y));
                    }
                    Self::lemma_cut_below(s0, *self, y);
                }
            } else {
                self.alloc_base = base_free_chunk_acme;
                let ghost s2 = *self;
                if base_free_chunk_acme == self.alloc_acme {
                    // nothing is left
                    self.is_top_free = false;
                    proof {
                        Self::lemma_new_bounds(s1, *self);
                        assert(!in_free(c0, y));
                        Self::lemma_cut_below(s0, *self, y);
                    }
                } else {
                    proof {
                        Self::lemma_new_bounds(s1, s2);
                        assert(tag_ok(m0, c0, y));
                        assert(ends_free(c0, y));
                        lemma_not_in_free(c0, y);
                        assert(chunk_fits(s0.alloc_base as int, s0.alloc_acme as int, y, c0[y]));
                        assert(!in_free(c0, y));
                        assert(!in_free(c0, c0[y].used->0.ptr - 8));
                        assert(s1.memory.words()[y] == m0[y]);
                        assert(s1.memory.words()[c0[y].used->0.ptr - 8] == m0[c0[y].used->0.ptr
                            - 8]);
                        lemma_tag_word(m0[y], c0[y].acme, true);
                        lemma_not_in_free(s1.chunks@, y);
                        assert(!ends_free(s1.chunks@, y));
                    }
                    Tag::clear_low_free(&mut self.memory, base_free_chunk_acme);
                    proof {
                        assert(self.memory.words().dom() =~= s1.memory.words().dom());
                        Self::lemma_recorded(s2, *self);
                        Self::lemma_cut_below(s0, *self, y);
                    }
                }
            }
        }
    }
}

} // verus!
