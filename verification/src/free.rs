use crate::bucket::g_of_size;
use crate::chunk::{chunk_ptr_from_alloc_ptr, FreeChunk, HighChunk};
use crate::layout::Layout;
use crate::memory::Memory;
use crate::model::{
    chunk_fits, ends_free, followed, in_free, is_free, lemma_chunk_of, lone, Chunk, Use,
};
use crate::oom::same_allocation;
use crate::tag::{lemma_tag_word, tag_word, Tag};
use crate::talloc::{frame, frame_but, kept, lemma_frame_step, lemma_not_in_free, tag_ok, Talloc};
use crate::word::WORD_SIZE;
use vstd::prelude::*;

verus! {

impl<M: Memory, H> Talloc<M, H> {
    /// The chunk of an allocation.
    pub(crate) proof fn lemma_locate(&self, ptr: int, layout: Layout)
        requires
            self.recorded(),
            self.heap().allocated(ptr, layout),
        ensures
            self.chunks@.dom().contains(self.heap().chunk_of(ptr)),
            self.chunks@[self.heap().chunk_of(ptr)].used == Some(Use { ptr, layout }),
            chunk_fits(
                self.alloc_base as int,
                self.alloc_acme as int,
                self.heap().chunk_of(ptr),
                self.chunks@[self.heap().chunk_of(ptr)],
            ),
    {
        let chunks = self.chunks@;
        let b = choose|b: int| #[trigger]
            chunks.dom().contains(b) && chunks[b].used == Some(Use { ptr, layout });
        self.lemma_laid_out();
        lemma_chunk_of(self.heap(), b);
    }

    /// Finds the chunk of the allocation at `ptr`: where it starts and ends, and
    /// whether the chunk below it is free.
    pub(crate) fn locate(&self, ptr: u64, layout: Layout) -> (found: (u64, u64, bool))
        requires
            self.wf(),
            self.heap().allocated(ptr as int, layout),
        ensures
            found.0 == self.heap().chunk_of(ptr as int),
            self.chunks@.dom().contains(found.0 as int),
            self.chunks@[found.0 as int] == (Chunk {
                acme: found.1 as int,
                used: Some(Use { ptr: ptr as int, layout }),
            }),
            found.2 == ends_free(self.chunks@, found.0 as int),
            chunk_fits(
                self.alloc_base as int,
                self.alloc_acme as int,
                found.0 as int,
                self.chunks@[found.0 as int],
            ),
            self.laid_out(),
    {
        let ghost chunks = self.chunks@;
        proof {
            let b = self.heap().chunk_of(ptr as int);
            self.lemma_laid_out();
            self.lemma_locate(ptr as int, layout);
            assert(tag_ok(self.memory.words(), chunks, b));
            self.lemma_find_chunk(b);
            lemma_tag_word(self.memory.words()[b], chunks[b].acme, ends_free(chunks, b));
        }
        let (chunk_ptr, tag) = chunk_ptr_from_alloc_ptr(&self.memory, ptr);
        (chunk_ptr, tag.acme_ptr(), tag.is_low_free())
    }

    /// Prepares for the end of the chunk from `b` to `acme` to become free: takes a
    /// free chunk above it from the record, or tells a reserved one, and returns
    /// where the free space will end.
    pub(crate) fn absorb_above(&mut self, acme: u64, Ghost(b): Ghost<int>) -> (end: u64)
        requires
            old(self).wf(),
            old(self).chunks@.dom().contains(b),
            old(self).chunks@[b].used is Some,
            old(self).chunks@[b].acme == acme,
        ensures
            final(self).recorded(),
            *final(self) == (Talloc {
                memory: final(self).memory,
                is_top_free: final(self).is_top_free,
                availability_low: final(self).availability_low,
                availability_high: final(self).availability_high,
                chunks: final(self).chunks,
                lists: final(self).lists,
                ..*old(self)
            }),
            final(self).heap() == old(self).heap().without_free_at(acme as int),
            end == old(self).heap().free_up_to(acme as int),
            end % 8 == 0,
            acme <= end <= old(self).alloc_acme,
            end < old(self).alloc_acme ==> {
                &&& old(self).chunks@.dom().contains(end as int)
                &&& old(self).chunks@[end as int].used matches Some(u) && final(
                    self).memory.words()[end as int] == tag_word(
                    old(self).chunks@[end as int].acme,
                    true,
                ) && (u.ptr - 8 != end ==> final(self).memory.words()[u.ptr - 8] == end)
            },
            final(self).is_top_free == (end == old(self).alloc_acme || old(self).is_top_free),
            frame_but(
                old(self).memory.words(),
                final(self).memory.words(),
                old(self).llists as int,
                old(self).chunks@,
                end as int,
                end as int,
            ),
            end == old(self).alloc_acme && !(old(self).llists <= end < old(self).llists + 1024)
                ==> final(self).memory.words()[end as int] == old(self).memory.words()[end as int],
    {
        let ghost s0 = *self;
        let ghost chunks = self.chunks@;
        let ghost e = acme as int;
        proof {
            self.lemma_laid_out();
            assert(followed(chunks, self.alloc_acme as int, b));
        }
        if acme == self.alloc_acme {
            self.is_top_free = true;
            proof {
                assert(!chunks.dom().contains(e));
                Self::lemma_same_record(s0, *self);
                if in_free(chunks, e) {
                }
            }
            return acme;
        }
        proof {
            assert(tag_ok(self.memory.words(), chunks, e));
            self.lemma_first_word(e);
            assert(followed(chunks, self.alloc_acme as int, e));
        }
        match HighChunk::from_ptr(&self.memory, acme) {
            HighChunk::Full(tag_ptr) => {
                Tag::set_low_free(&mut self.memory, tag_ptr);
                proof {
                    lemma_tag_word(s0.memory.words()[e], chunks[e].acme, ends_free(chunks, e));
                    assert(self.memory.words().dom() =~= s0.memory.words().dom());
                    lemma_not_in_free(chunks, e);
                    Self::lemma_recorded(s0, *self);
                }
                acme
            },
            HighChunk::Free(high_chunk) => {
                proof {
                    assert(is_free(chunks, e));
                    self.lemma_sizes(e);
                }
                let high_chunk_size: u64 = self.memory.read(high_chunk.size_ptr());
                self.remove_chunk_from_record(high_chunk.node_ptr(), g_of_size(high_chunk_size));
                proof {
                    let end = chunks[e].acme;
                    assert(lone(chunks, e));
                    if end != self.alloc_acme {
                        assert(tag_ok(s0.memory.words(), chunks, end));
                        assert(ends_free(chunks, end));
                        lemma_not_in_free(chunks, end);
                        let u = chunks[end].used->0;
                        assert(chunk_fits(
                            self.alloc_base as int,
                            self.alloc_acme as int,
                            end,
                            chunks[end],
                        ));
                    } else {
                        assert(ends_free(chunks, end));
                        assert(!in_free(chunks, end));
                    }
                }
                acme + high_chunk_size
            },
        }
    }

    /// The steps of freeing the chunk at `b` lead to an allocator that is well
    /// formed: `s1` is the state once the space above has been prepared, `s2` that
    /// without the free chunk below, and `after` that with the free chunk from `x`
    /// to `y`.
    proof fn lemma_freed(s0: Self, s1: Self, s2: Self, after: Self, b: int, x: int, y: int)
        requires
            s0.wf(),
            s0.chunks@.dom().contains(b),
            s0.chunks@[b].used is Some,
            y == s0.heap().free_up_to(s0.chunks@[b].acme),
            s0.chunks@[b].acme <= y <= s0.alloc_acme,
            x == if ends_free(s0.chunks@, b) {
                s0.heap().free_below(b)
            } else {
                b
            },
            s1.heap() == s0.heap().without_free_at(s0.chunks@[b].acme),
            y < s0.alloc_acme ==> {
                &&& s0.chunks@.dom().contains(y)
                &&& s0.chunks@[y].used matches Some(u) && s1.memory.words()[y] == tag_word(
                    s0.chunks@[y].acme,
                    true,
                ) && (u.ptr - 8 != y ==> s1.memory.words()[u.ptr - 8] == y)
            },
            s1.is_top_free == (y == s0.alloc_acme || s0.is_top_free),
            frame_but(
                s0.memory.words(),
                s1.memory.words(),
                s0.llists as int,
                s0.chunks@,
                y,
                y,
            ),
            y == s0.alloc_acme && !(s0.llists <= y < s0.llists + 1024) ==> s1.memory.words()[y]
                == s0.memory.words()[y],
            s2.chunks@ == if ends_free(s0.chunks@, b) {
                s1.chunks@.remove(x)
            } else {
                s1.chunks@
            },
            frame(s1.memory.words(), s2.memory.words(), s0.llists as int, s1.chunks@),
            s1.same_bounds(&Talloc { is_top_free: s1.is_top_free, ..s0 }),
            after.same_bounds(&s1),
            after.recorded(),
            after.chunks@ == s2.chunks@.remove(b).insert(x, Chunk { acme: y, used: None }),
            frame(s2.memory.words(), after.memory.words(), s0.llists as int, after.chunks@),
        ensures
            after.wf(),
            kept(s0.heap(), s0.words(), after.heap(), after.words(), s0.bins()),
    {
        let c0 = s0.chunks@;
        let c1 = s1.chunks@;
        let c4 = after.chunks@;
        let e = c0[b].acme;
        let llists = s0.llists as int;
        let m0 = s0.memory.words();
        let m1 = s1.memory.words();
        let m2 = s2.memory.words();
        let m4 = after.memory.words();
        s0.lemma_laid_out();
        after.lemma_laid_out();
        assert(chunk_fits(s0.alloc_base as int, s0.alloc_acme as int, b, c0[b]));
        if ends_free(c0, b) {
            assert(c0.dom().contains(x) && c0[x].used is None && c0[x].acme == b);
        }
        assert(c4.dom().contains(x));
        assert forall|a: int| #[trigger] in_free(c0, a) implies in_free(c4, a) by {
            let c = choose|c: int| #[trigger]
                c0.dom().contains(c) && c0[c].used is None && c <= a < c0[c].acme;
            if c != x && c != e {
                assert(c4.dom().contains(c));
            }
        }
        assert forall|a: int| #[trigger] in_free(c1, a) implies in_free(c4, a) by {
            let c = choose|c: int| #[trigger]
                c1.dom().contains(c) && c1[c].used is None && c <= a < c1[c].acme;
            assert(c0.dom().contains(c));
            assert(in_free(c0, a));
        }
        assert(frame_but(m0, m1, llists, c4, y, y));
        lemma_frame_step(m0, m1, m2, llists, c1, c4, y, y);
        lemma_frame_step(m0, m2, m4, llists, c4, c4, y, y);
        if y < s0.alloc_acme {
            assert(c4.dom().contains(y));
            assert(c1.dom().contains(y));
            lemma_not_in_free(c4, y);
            let u = c0[y].used->0;
            assert(chunk_fits(s0.alloc_base as int, s0.alloc_acme as int, y, c0[y]));
            assert(!in_free(c1, y));
            assert(!in_free(c1, u.ptr - 8));
            assert(m4[y] == m1[y]);
            assert(m4[u.ptr - 8] == m1[u.ptr - 8]);
            assert(ends_free(c4, y));
        } else {
            assert(!c4.dom().contains(y));
            assert(ends_free(c4, y));
            assert(!in_free(c4, y));
        }
        assert(is_free(c4, x));
        assert(lone(c4, x));
        if ends_free(c0, x) {
            let c = choose|c: int| #[trigger]
                c0.dom().contains(c) && c0[c].used is None && c0[c].acme == x;
            assert(is_free(c0, c));
            assert(lone(c0, c));
        }
        assert(s0.alloc_base < s0.alloc_acme);
        Self::lemma_replace(s0, after, x, y, y);
        Self::lemma_kept(s0, after, c4, y, y);
    }

    /// Frees the allocation at `ptr`, which was made for `layout`.
    pub fn free(&mut self, ptr: u64, layout: Layout)
        requires
            old(self).wf(),
            old(self).heap().allocated(ptr as int, layout),
        ensures
            final(self).wf(),
            final(self).heap() == old(self).heap().freed(ptr as int),
            final(self).bins() == old(self).bins(),
            final(self).handler() == old(self).handler(),
            kept(
                old(self).heap(),
                old(self).words(),
                final(self).heap(),
                final(self).words(),
                old(self).bins(),
            ),
            forall|other: int, held: Layout| #[trigger]
                old(self).heap().allocated(other, held) && other != ptr ==> same_allocation(
                    *old(self),
                    *final(self),
                    other,
                    held,
                ),
            forall|other: int, held: Layout| #[trigger]
                final(self).heap().allocated(other, held) ==> other != ptr && old(
                    self).heap().allocated(other, held),
    {
        let ghost s0 = *self;
        let ghost chunks = self.chunks@;
        let (found_ptr, found_acme, is_low_free) = self.locate(ptr, layout);
        let ghost b = found_ptr as int;
        let mut chunk_ptr: u64 = found_ptr;
        let chunk_acme: u64 = self.absorb_above(found_acme, Ghost(b));
        let ghost s1 = *self;

        if is_low_free {
            proof {
                let p = s0.heap().free_below(b);
                assert(chunks.dom().contains(p) && chunks[p].used is None && chunks[p].acme == b);
                assert(is_free(self.chunks@, p));
                self.lemma_sizes(p);
            }
            // the size stands at the top of the low chunk too
            let low_chunk_size: u64 = self.memory.read(chunk_ptr - WORD_SIZE);
            chunk_ptr = chunk_ptr - low_chunk_size;
            self.remove_chunk_from_record(
                FreeChunk(chunk_ptr).node_ptr(),
                g_of_size(low_chunk_size),
            );
        }
        let ghost s2 = *self;
        proof {
            self.chunks@ = self.chunks@.remove(b);
            Self::lemma_unreserve(s2, *self, b);
            s2.lemma_laid_out();
        }
        self.add_chunk_to_record(chunk_ptr, chunk_acme);
        proof {
            assert(self.chunks@ == s2.chunks@.remove(b).insert(
                chunk_ptr as int,
                Chunk { acme: chunk_acme as int, used: None },
            ));
            Self::lemma_freed(s0, s1, s2, *self, b, chunk_ptr as int, chunk_acme as int);
            assert(self.chunks@ =~= s0.heap().freed(ptr as int).chunks);
            assert(self.lists@ =~= s0.heap().freed(ptr as int).lists);
            law_free(s0, *self, ptr as int, layout);
        }
    }
}

/// Freeing an allocation leaves the others alone, and no other is live afterwards.
pub proof fn law_free<M: Memory, H>(
    before: Talloc<M, H>,
    after: Talloc<M, H>,
    ptr: int,
    layout: Layout,
)
    requires
        before.wf(),
        before.heap().allocated(ptr, layout),
        after.heap() == before.heap().freed(ptr),
        kept(before.heap(), before.words(), after.heap(), after.words(), before.bins()),
    ensures
        forall|other: int, held: Layout| #[trigger]
            before.heap().allocated(other, held) && other != ptr ==> same_allocation(
                before,
                after,
                other,
                held,
            ),
        forall|other: int, held: Layout| #[trigger]
            after.heap().allocated(other, held) ==> other != ptr && before.heap().allocated(
                other,
                held,
            ),
{
    before.lemma_laid_out();
    let c0 = before.chunks@;
    let c4 = after.chunks@;
    let lo = before.alloc_base as int;
    let hi = before.alloc_acme as int;
    let b = choose|b: int| #[trigger]
        c0.dom().contains(b) && c0[b].used == Some(Use { ptr, layout });
    lemma_chunk_of(before.heap(), b);
    if ends_free(c0, b) {
        let p = before.heap().free_below(b);
        assert(c0.dom().contains(p) && c0[p].used is None && c0[p].acme == b);
    }
    assert forall|other: int, held: Layout| #[trigger]
        before.heap().allocated(other, held) && other != ptr implies same_allocation(
        before,
        after,
        other,
        held,
    ) by {
        let d = choose|d: int| #[trigger]
            c0.dom().contains(d) && c0[d].used == Some(Use { ptr: other, layout: held });
        assert(chunk_fits(lo, hi, d, c0[d]));
        assert(c4.dom().contains(d) && c4[d] == c0[d]);
    }
    assert forall|other: int, held: Layout| #[trigger]
        after.heap().allocated(other, held) implies other != ptr && before.heap().allocated(
        other,
        held,
    ) by {
        let d = choose|d: int| #[trigger]
            c4.dom().contains(d) && c4[d].used == Some(Use { ptr: other, layout: held });
        assert(c0.dom().contains(d) && c0[d] == c4[d] && d != b);
        assert(chunk_fits(lo, hi, d, c0[d]));
    }
}

} // verus!
