use crate::bucket::g_of_size;
use crate::chunk::{FreeChunk, HighChunk};
use crate::layout::Layout;
use crate::memory::{byte_at, copied, copy_nonoverlapping, law_copied, Memory};
use crate::model::{
    chunk_fits, ends_free, followed, in_free, in_payload, is_free, lone, required_acme, reserve_to,
    same_outside, use_fits, Chunk, Heap, Use,
};
use crate::oom::{moved, moved_through, same_allocation, AllocError, OomHandler};
use crate::tag::{lemma_tag_word, tag_word, Tag};
use crate::talloc::{frame, frame_but, kept, lemma_not_in_free, tag_ok, Talloc};
use crate::word::{align_up, ge_min_size_apart, round_up, MIN_CHUNK_SIZE};
use vstd::prelude::*;

verus! {

/// A chunk at `b` that holds `size` bytes at `ptr` must end here at least.
fn req_acme(b: u64, ptr: u64, size: u64) -> (acme: u64)
    requires
        ptr + size + 7 <= u64::MAX,
        b + 24 <= u64::MAX,
    ensures
        acme == required_acme(b as int, ptr as int, size as int),
{
    let end: u64 = align_up(ptr + size);
    if end < b + MIN_CHUNK_SIZE {
        b + MIN_CHUNK_SIZE
    } else {
        end
    }
}

/// What it takes to give the allocation at `ptr` a new size.
proof fn lemma_new_size(b: int, acme: int, hi: int, ptr: int, layout: Layout, new_size: u64)
    requires
        chunk_fits(1, hi, b, Chunk { acme, used: Some(Use { ptr, layout }) }),
        hi <= u64::MAX,
        Layout::valid_parts(new_size as int, layout.align() as int),
        0 < new_size,
    ensures
        ({
            let req = required_acme(b, ptr, new_size as int);
            let u = Heap::resized(ptr, layout, new_size);
            &&& req % 8 == 0
            &&& ptr + new_size <= req
            &&& forall|e: int| req <= e ==> #[trigger] use_fits(b, e, u)
            &&& acme < req ==> layout.size() < new_size
            &&& b + 24 <= req
            &&& new_size > u64::MAX - 7 - ptr ==> hi < req || u64::MAX - 7 <= hi
        }),
{
    broadcast use vstd::arithmetic::div_mod::group_div_basics;

    let end = round_up(ptr + new_size, 8);
    let had = round_up(ptr + layout.size(), 8);
    assert(end % 8 == 0 && ptr + new_size <= end);
    assert(had <= acme);
}

/// What is valid for a size is valid for a smaller one.
proof fn lemma_smaller(layout: Layout, new_size: u64)
    requires
        layout.valid(),
        0 < new_size <= layout.size(),
    ensures
        Layout::valid_parts(new_size as int, layout.align() as int),
{
}

impl<M: Memory, H> Talloc<M, H> {
    /// Notes that the allocation in the reserved chunk at `b` is now as `u` says.
    pub(crate) proof fn lemma_relaid(before: Self, after: Self, b: int, u: Use)
        requires
            before.wf(),
            before.chunks@.dom().contains(b),
            before.chunks@[b].used is Some,
            before.chunks@[b].used->0.ptr == u.ptr,
            use_fits(b, before.chunks@[b].acme, u),
            after == (Talloc { chunks: after.chunks, ..before }),
            after.chunks@ == before.chunks@.insert(
                b,
                Chunk { acme: before.chunks@[b].acme, used: Some(u) },
            ),
        ensures
            after.wf(),
            kept(before.heap(), before.words(), after.heap(), after.words(), before.bins()),
    {
        before.lemma_laid_out();
        let c0 = before.chunks@;
        let c4 = after.chunks@;
        let m = before.memory.words();
        let y = c0[b].acme;
        let mid = Talloc { chunks: Ghost(c0.remove(b)), ..before };
        let chunk = Chunk { acme: y, used: Some(u) };
        Self::lemma_unreserve(before, mid, b);
        assert(c4 =~= mid.chunks@.insert(b, chunk));
        Self::lemma_reserve(mid, after, b, chunk);
        after.lemma_laid_out();
        assert(followed(c0, before.alloc_acme as int, b));
        assert(tag_ok(m, c0, b));
        assert forall|e: int| ends_free(c4, e) == ends_free(c0, e) by {
            if ends_free(c0, e) {
                let d = choose|d: int| #[trigger]
                    c0.dom().contains(d) && c0[d].used is None && c0[d].acme == e;
                assert(c4.dom().contains(d));
            }
            if ends_free(c4, e) {
                let d = choose|d: int| #[trigger]
                    c4.dom().contains(d) && c4[d].used is None && c4[d].acme == e;
                assert(c0.dom().contains(d));
            }
        }
        if c0.dom().contains(y) {
            assert(tag_ok(m, c0, y));
        }
        Self::lemma_replace(before, after, b, y, y);
        Self::lemma_kept(before, after, c0, y, y);
    }

    /// Lets the reserved chunk at `b` end at `acme`, with an allocation as `u` says.
    fn retag(&mut self, b: u64, acme: u64, Ghost(u): Ghost<Use>)
        requires
            old(self).recorded(),
            old(self).chunks@.dom().contains(b as int),
            old(self).chunks@[b as int].used is Some,
            chunk_fits(
                old(self).alloc_base as int,
                old(self).alloc_acme as int,
                b as int,
                (Chunk { acme: acme as int, used: Some(u) }),
            ),
            forall|c: int| #[trigger]
                old(self).chunks@.dom().contains(c) && c != b ==> old(self).chunks@[c].acme <= b
                    || acme <= c,
        ensures
            final(self).recorded(),
            *final(self) == (Talloc {
                memory: final(self).memory,
                chunks: final(self).chunks,
                ..*old(self)
            }),
            final(self).heap() == old(self).heap().reserve(b as int, acme as int, u),
            final(self).memory.words().dom() == old(self).memory.words().dom(),
            final(self).memory.words()[b as int] == acme + old(self).memory.words()[b as int] % 4,
            forall|a: int|
                a != b ==> #[trigger] final(self).memory.words()[a] == old(self).memory.words()[a],
    {
        let ghost s0 = *self;
        proof {
            self.lemma_laid_out();
            lemma_not_in_free(self.chunks@, b as int);
            assert(chunk_fits(
                self.alloc_base as int,
                self.alloc_acme as int,
                b as int,
                self.chunks@[b as int],
            ));
        }
        Tag::set_acme(&mut self.memory, b, acme);
        proof {
            assert(self.memory.words().dom() =~= s0.memory.words().dom());
            Self::lemma_recorded(s0, *self);
            let s1 = *self;
            let mid = Talloc { chunks: Ghost(self.chunks@.remove(b as int)), ..s1 };
            let chunk = Chunk { acme: acme as int, used: Some(u) };
            Self::lemma_unreserve(s1, mid, b as int);
            self.chunks@ = self.chunks@.insert(b as int, chunk);
            assert(self.chunks@ =~= mid.chunks@.insert(b as int, chunk));
            Self::lemma_reserve(mid, *self, b as int, chunk);
        }
    }

    /// The steps of cutting the chunk at `b` to end at `req` lead to an allocator
    /// that is well formed: `s1` is the state once the space above has been
    /// prepared, `s2` that with the free chunk from `req` to `y`.
    proof fn lemma_shrunk(s0: Self, s1: Self, s2: Self, after: Self, b: int, req: int, y: int, u: Use)
        requires
            s0.wf(),
            s0.chunks@.dom().contains(b),
            s0.chunks@[b].used is Some,
            s0.chunks@[b].used->0.ptr == u.ptr,
            use_fits(b, req, u),
            b + 24 <= req,
            req + 24 <= s0.chunks@[b].acme,
            req % 8 == 0,
            y == s0.heap().free_up_to(s0.chunks@[b].acme),
            s0.chunks@[b].acme <= y <= s0.alloc_acme,
            s1.heap() == s0.heap().without_free_at(s0.chunks@[b].acme),
            y < s0.alloc_acme ==> {
                &&& s0.chunks@.dom().contains(y)
                &&& s0.chunks@[y].used matches Some(v) && s1.memory.words()[y] == tag_word(
                    s0.chunks@[y].acme,
                    true,
                ) && (v.ptr - 8 != y ==> s1.memory.words()[v.ptr - 8] == y)
            },
            s1.is_top_free == (y == s0.alloc_acme || s0.is_top_free),
            frame_but(
                s0.memory.words(),
                s1.memory.words(),
                s0.llists as int,
                s0.chunks@,
                y,
                y,
            ),
            y == s0.alloc_acme && !(s0.llists <= y < s0.llists + 1024) ==> s1.memory.words()[y]
                == s0.memory.words()[y],
            s2.chunks@ == s1.chunks@.insert(b, Chunk { acme: req, used: Some(u) }).insert(
                req,
                Chunk { acme: y, used: None },
            ),
            s2.laid_out(),
            frame(s1.memory.words(), s2.memory.words(), s0.llists as int, s2.chunks@),
            after.chunks@ == s2.chunks@,
            after.memory.words().dom() == s2.memory.words().dom(),
            after.memory.words()[b] == req + s2.memory.words()[b] % 4,
            forall|a: int|
                a != b ==> #[trigger] after.memory.words()[a] == s2.memory.words()[a],
            s1.same_bounds(&Talloc { is_top_free: s1.is_top_free, ..s0 }),
            after.same_bounds(&s1),
            after.recorded(),
        ensures
            after.wf(),
            kept(s0.heap(), s0.words(), after.heap(), after.words(), s0.bins()),
    {
        let c0 = s0.chunks@;
        let c1 = s1.chunks@;
        let c4 = after.chunks@;
        let e = c0[b].acme;
        let llists = s0.llists as int;
        let m0 = s0.memory.words();
        let m1 = s1.memory.words();
        let m2 = s2.memory.words();
        let m4 = after.memory.words();
        let lo = s0.alloc_base as int;
        let hi = s0.alloc_acme as int;
        s0.lemma_laid_out();
        after.lemma_laid_out();
        assert(chunk_fits(lo, hi, b, c0[b]));
        assert(followed(c0, hi, b));
        assert(c4.dom().contains(b));
        assert(c4.dom().contains(req));
        assert forall|a: int| #[trigger] in_free(c0, a) implies in_free(c4, a) by {
            let d = choose|d: int| #[trigger]
                c0.dom().contains(d) && c0[d].used is None && d <= a < c0[d].acme;
            if d != e {
                assert(c4.dom().contains(d));
            }
        }
        assert forall|a: int|
            !(llists <= a < llists + 1024) && !in_free(c4, a) && a != b && a
                != y implies #[trigger] m4[a] == m0[a] by {
            assert(m1[a] == m0[a]);
            assert(m2[a] == m1[a]);
        }
        assert(frame_but(m0, m4, llists, c4, b, y));
        // the tag
        lemma_not_in_free(c0, b);
        lemma_not_in_free(c4, b);
        assert(tag_ok(m0, c0, b));
        lemma_tag_word(m0[b], e, ends_free(c0, b));
        assert(m1[b] == m0[b]);
        assert(m2[b] == m1[b]);
        assert(ends_free(c4, b) == ends_free(c0, b)) by {
            if ends_free(c0, b) {
                let d = choose|d: int| #[trigger]
                    c0.dom().contains(d) && c0[d].used is None && c0[d].acme == b;
                assert(c4.dom().contains(d));
            }
            if ends_free(c4, b) {
                let d = choose|d: int| #[trigger]
                    c4.dom().contains(d) && c4[d].used is None && c4[d].acme == b;
                assert(c0.dom().contains(d));
            }
        }
        if u.ptr - 8 != b {
            assert(!in_free(c4, u.ptr - 8));
            assert(m4[u.ptr - 8] == m0[u.ptr - 8]);
        }
        assert(tag_ok(m4, c4, b));
        // what stands above
        assert(ends_free(c4, y));
        if y < hi {
            assert(c4.dom().contains(y));
            lemma_not_in_free(c4, y);
            let v = c0[y].used->0;
            assert(chunk_fits(lo, hi, y, c0[y]));
            assert(m2[y] == m1[y]);
            assert(m2[v.ptr - 8] == m1[v.ptr - 8]);
            assert(tag_ok(m4, c4, y));
        } else {
            assert(!c4.dom().contains(y));
            assert(!in_free(c4, y));
        }
        assert(lone(c4, req));
        assert forall|d: int| #[trigger] c4.dom().contains(d) && b <= d < y implies c4[d].acme <= y
            && followed(c4, hi, d) && tag_ok(m4, c4, d) by {
            assert(d == b || d == req);
        }
        assert forall|d: int| #[trigger] is_free(c4, d) && b <= d < y implies lone(c4, d) by {
            assert(d == req);
        }
        assert(same_outside(c0, c4, b, y));
        Self::lemma_replace(s0, after, b, y, b);
        Self::lemma_kept(s0, after, c4, b, y);
    }

    /// Cuts the chunk from `b` to `acme` to end at `req`.
    fn cut(&mut self, b: u64, acme: u64, req: u64, Ghost(u): Ghost<Use>)
        requires
            old(self).wf(),
            old(self).chunks@.dom().contains(b as int),
            old(self).chunks@[b as int].acme == acme,
            old(self).chunks@[b as int].used is Some,
            old(self).chunks@[b as int].used->0.ptr == u.ptr,
            use_fits(b as int, req as int, u),
            b + 24 <= req,
            req + 24 <= acme,
            req % 8 == 0,
        ensures
            final(self).wf(),
            final(self).heap() == old(self).heap().without_free_at(acme as int).record(
                req as int,
                old(self).heap().free_up_to(acme as int),
            ).reserve(b as int, req as int, u),
            final(self).bins() == old(self).bins(),
            final(self).handler() == old(self).handler(),
            kept(
                old(self).heap(),
                old(self).words(),
                final(self).heap(),
                final(self).words(),
                old(self).bins(),
            ),
    {
        let ghost s0 = *self;
        let end: u64 = self.absorb_above(acme, Ghost(b as int));
        let ghost s1 = *self;
        let ghost chunk = Chunk { acme: req as int, used: Some(u) };
        proof {
            // the chunk keeps its tag until the space above is recorded
            s0.lemma_laid_out();
            s1.lemma_laid_out();
            assert(chunk_fits(s0.alloc_base as int, s0.alloc_acme as int, b as int, s0.chunks@[
                b as int
            ]));
            let mid = Talloc { chunks: Ghost(self.chunks@.remove(b as int)), ..s1 };
            Self::lemma_unreserve(s1, mid, b as int);
            self.chunks@ = self.chunks@.insert(b as int, chunk);
            assert(self.chunks@ =~= mid.chunks@.insert(b as int, chunk));
            Self::lemma_reserve(mid, *self, b as int, chunk);
            assert forall|c: int| #[trigger] self.chunks@.dom().contains(c) implies self.chunks@[c].acme
                <= req || end <= c by {
                if c != b {
                    assert(s0.chunks@.dom().contains(c));
                }
            }
        }
        self.add_chunk_to_record(req, end);
        let ghost s2 = *self;
        proof {
            s2.lemma_laid_out();
        }
        self.retag(b, req, Ghost(u));
        proof {
            assert(self.chunks@ =~= s2.chunks@);
            Self::lemma_shrunk(s0, s1, s2, *self, b as int, req as int, end as int, u);
            assert(self.chunks@ =~= s0.heap().without_free_at(acme as int).record(
                req as int,
                end as int,
            ).reserve(b as int, req as int, u).chunks);
        }
    }

    /// Cuts the allocation at `ptr`, which was made for `layout`, to `new_size` bytes.
    /// The allocation stays where it is.
    pub fn shrink(&mut self, ptr: u64, layout: Layout, new_size: u64)
        requires
            old(self).wf(),
            old(self).heap().allocated(ptr as int, layout),
            0 < new_size <= layout.size(),
        ensures
            final(self).wf(),
            final(self).heap() == old(self).heap().shrunk(ptr as int, layout, new_size),
            final(self).bins() == old(self).bins(),
            final(self).handler() == old(self).handler(),
            kept(
                old(self).heap(),
                old(self).words(),
                final(self).heap(),
                final(self).words(),
                old(self).bins(),
            ),
            final(self).heap().allocated(ptr as int, Layout::of(new_size, layout.align())),
            forall|a: int|
                ptr <= a < ptr + new_size ==> #[trigger] final(self).words()[a] == old(
                    self).words()[a],
            forall|other: int, held: Layout| #[trigger]
                old(self).heap().allocated(other, held) && other != ptr ==> same_allocation(
                    *old(self),
                    *final(self),
                    other,
                    held,
                ),
    {
        let ghost s0 = *self;
        let (chunk_ptr, chunk_acme, _) = self.locate(ptr, layout);
        let ghost u = Heap::resized(ptr as int, layout, new_size);
        proof {
            s0.lemma_locate(ptr as int, layout);
            lemma_smaller(layout, new_size);
            lemma_new_size(
                chunk_ptr as int,
                chunk_acme as int,
                self.alloc_acme as int,
                ptr as int,
                layout,
                new_size,
            );
        }
        let new_req_acme: u64 = req_acme(chunk_ptr, ptr, new_size);
        // what would be too small for a chunk stays in this one
        if ge_min_size_apart(new_req_acme, chunk_acme) {
            self.cut(chunk_ptr, chunk_acme, new_req_acme, Ghost(u));
        } else {
            proof {
                self.chunks@ = self.chunks@.insert(
                    chunk_ptr as int,
                    Chunk { acme: chunk_acme as int, used: Some(u) },
                );
                Self::lemma_relaid(s0, *self, chunk_ptr as int, u);
            }
        }
        proof {
            let b = chunk_ptr as int;
            let c0 = s0.chunks@;
            let e = chunk_acme as int;
            s0.lemma_laid_out();
            s0.lemma_free_above(b);
            assert(self.chunks@ == self.heap().chunks);
            assert(self.chunks@.dom().contains(b) && self.chunks@[b].used == Some(u));
            assert forall|c: int| #[trigger]
                c0.dom().contains(c) && c0[c].used is Some && c
                    != b implies self.chunks@.dom().contains(c) && self.chunks@[c] == c0[c] by {
                assert(chunk_fits(s0.alloc_base as int, s0.alloc_acme as int, c, c0[c]));
            }
            lemma_others_spared(s0, *self, b);
        }
    }

    /// The steps of letting the chunk at `b` grow into the free chunk from `e` to
    /// `top` lead to an allocator that is well formed: `s1` is the state without
    /// the free chunk, `s2` that with what is left of it.
    proof fn lemma_stretched(
        s0: Self,
        s1: Self,
        s2: Self,
        after: Self,
        b: int,
        e: int,
        top: int,
        end: int,
        u: Use,
    )
        requires
            s0.wf(),
            s0.chunks@.dom().contains(b),
            s0.chunks@[b].used is Some,
            s0.chunks@[b].used->0.ptr == u.ptr,
            s0.chunks@[b].acme == e,
            is_free(s0.chunks@, e),
            s0.chunks@[e].acme == top,
            use_fits(b, end, u),
            e < end,
            end == top || end + 24 <= top,
            s1.heap() == s0.heap().strike(e),
            frame(s0.memory.words(), s1.memory.words(), s0.llists as int, s0.chunks@),
            s2.heap() == if end == top {
                s1.heap()
            } else {
                s1.heap().record(end, top)
            },
            frame_but(
                s1.memory.words(),
                s2.memory.words(),
                s0.llists as int,
                s2.chunks@,
                top,
                top,
            ),
            top < s0.alloc_acme ==> s2.memory.words()[top] == tag_word(
                s0.chunks@[top].acme,
                end != top,
            ),
            top == s0.alloc_acme && !(s0.llists <= top < s0.llists + 1024)
                ==> s2.memory.words()[top] == s1.memory.words()[top],
            after.heap() == s2.heap().reserve(b, end, u),
            after.memory.words().dom() == s2.memory.words().dom(),
            after.memory.words()[b] == end + s2.memory.words()[b] % 4,
            forall|a: int|
                a != b ==> #[trigger] after.memory.words()[a] == s2.memory.words()[a],
            after.is_top_free == (s0.is_top_free && !(end == top && top == s0.alloc_acme)),
            after.same_bounds(&Talloc { is_top_free: after.is_top_free, ..s0 }),
            after.recorded(),
        ensures
            after.wf(),
            kept(s0.heap(), s0.words(), after.heap(), after.words(), s0.bins()),
    {
        let c0 = s0.chunks@;
        let c2 = s2.chunks@;
        let c4 = after.chunks@;
        let llists = s0.llists as int;
        let m0 = s0.memory.words();
        let m1 = s1.memory.words();
        let m2 = s2.memory.words();
        let m4 = after.memory.words();
        let lo = s0.alloc_base as int;
        let hi = s0.alloc_acme as int;
        s0.lemma_laid_out();
        after.lemma_laid_out();
        assert(chunk_fits(lo, hi, b, c0[b]));
        assert(chunk_fits(lo, hi, e, c0[e]));
        assert(lone(c0, e));
        assert(followed(c0, hi, e));
        assert(c4.dom().contains(b));
        assert forall|a: int| #[trigger] in_free(c2, a) implies in_free(c0, a) by {
            let d = choose|d: int| #[trigger]
                c2.dom().contains(d) && c2[d].used is None && d <= a < c2[d].acme;
            if d != end {
                assert(c0.dom().contains(d));
            }
        }
        assert forall|a: int|
            !(llists <= a < llists + 1024) && !in_free(c0, a) && a != b && a
                != top implies #[trigger] m4[a] == m0[a] by {
            assert(m1[a] == m0[a]);
            assert(m2[a] == m1[a]);
        }
        assert(frame_but(m0, m4, llists, c0, b, top));
        // the tag
        lemma_not_in_free(c0, b);
        assert(tag_ok(m0, c0, b));
        lemma_tag_word(m0[b], e, ends_free(c0, b));
        assert(m1[b] == m0[b]);
        assert(m2[b] == m1[b]);
        assert(ends_free(c4, b) == ends_free(c0, b)) by {
            if ends_free(c0, b) {
                let d = choose|d: int| #[trigger]
                    c0.dom().contains(d) && c0[d].used is None && c0[d].acme == b;
                assert(c4.dom().contains(d));
            }
            if ends_free(c4, b) {
                let d = choose|d: int| #[trigger]
                    c4.dom().contains(d) && c4[d].used is None && c4[d].acme == b;
                assert(c0.dom().contains(d));
            }
        }
        if u.ptr - 8 != b {
            assert(!in_free(c0, u.ptr - 8));
            assert(m4[u.ptr - 8] == m0[u.ptr - 8]);
        }
        assert(tag_ok(m4, c4, b));
        // what stands above
        assert(ends_free(c4, top) == (end != top)) by {
            if end != top {
                assert(c4.dom().contains(end));
            } else if ends_free(c4, top) {
                let d = choose|d: int| #[trigger]
                    c4.dom().contains(d) && c4[d].used is None && c4[d].acme == top;
                assert(chunk_fits(lo, hi, d, c4[d]));
            }
        }
        assert(ends_free(c0, top));
        if top < hi {
            assert(c0.dom().contains(top));
            assert(c4.dom().contains(top));
            assert(c0[top].used is Some);
            assert(chunk_fits(lo, hi, top, c0[top]));
            assert(tag_ok(m0, c0, top));
            lemma_not_in_free(c0, top);
            let v = c0[top].used->0;
            assert(m4[v.ptr - 8] == m0[v.ptr - 8] || v.ptr - 8 == top);
            assert(tag_ok(m4, c4, top));
        } else {
            assert(!c4.dom().contains(top));
            assert(!in_free(c0, top));
        }
        assert forall|d: int| #[trigger] c4.dom().contains(d) && b <= d < top implies c4[d].acme
            <= top && followed(c4, hi, d) && tag_ok(m4, c4, d) by {
            assert(d == b || d == end);
        }
        assert forall|d: int| #[trigger] is_free(c4, d) && b <= d < top implies lone(c4, d) by {
            assert(d == end);
        }
        assert(same_outside(c0, c4, b, top));
        Self::lemma_replace(s0, after, b, top, b);
        Self::lemma_kept(s0, after, c0, b, top);
    }

    /// Lets the chunk from `b` to `e` grow into the free chunk above it, up to `req` at
    /// least.
    fn stretch(&mut self, b: u64, e: u64, high_chunk_size: u64, req: u64, Ghost(u): Ghost<Use>)
        requires
            old(self).wf(),
            old(self).chunks@.dom().contains(b as int),
            old(self).chunks@[b as int].acme == e,
            old(self).chunks@[b as int].used is Some,
            old(self).chunks@[b as int].used->0.ptr == u.ptr,
            is_free(old(self).chunks@, e as int),
            old(self).chunks@[e as int].acme == e + high_chunk_size,
            e < req <= e + high_chunk_size,
            req % 8 == 0,
            use_fits(b as int, req as int, u),
        ensures
            final(self).wf(),
            ({
                let top = e + high_chunk_size;
                let end = reserve_to(req as int, top);
                let rest = if end == top {
                    old(self).heap().strike(e as int)
                } else {
                    old(self).heap().strike(e as int).record(end, top)
                };
                final(self).heap() == rest.reserve(b as int, end, u)
            }),
            final(self).bins() == old(self).bins(),
            final(self).handler() == old(self).handler(),
            kept(
                old(self).heap(),
                old(self).words(),
                final(self).heap(),
                final(self).words(),
                old(self).bins(),
            ),
    {
        let ghost s0 = *self;
        let ghost c0 = self.chunks@;
        let ghost top = e + high_chunk_size;
        proof {
            self.lemma_laid_out();
            assert(chunk_fits(self.alloc_base as int, self.alloc_acme as int, b as int, c0[b as int]));
            assert(chunk_fits(self.alloc_base as int, self.alloc_acme as int, e as int, c0[e as int]));
        }
        let free_chunk = FreeChunk(e);
        self.remove_chunk_from_record(free_chunk.node_ptr(), g_of_size(high_chunk_size));
        let ghost s1 = *self;
        proof {
            s1.lemma_laid_out();
            s0.lemma_limbo(s1, e as int);
            assert(lone(c0, e as int));
            assert(followed(c0, s0.alloc_acme as int, e as int));
            if top < s0.alloc_acme {
                assert(tag_ok(s0.memory.words(), c0, top));
                assert(ends_free(c0, top));
                lemma_not_in_free(c0, top);
                assert(chunk_fits(s0.alloc_base as int, s0.alloc_acme as int, top, c0[top]));
            }
        }
        let end: u64 = self.carve_above(req, e + high_chunk_size);
        let ghost s2 = *self;
        proof {
            s2.lemma_laid_out();
            assert forall|c: int| #[trigger] s2.chunks@.dom().contains(c) && c
                != b implies s2.chunks@[c].acme <= b || end <= c by {
                if c != end {
                    assert(s1.chunks@.dom().contains(c));
                }
            }
        }
        self.retag(b, end, Ghost(u));
        proof {
            Self::lemma_stretched(s0, s1, s2, *self, b as int, e as int, top, end as int, u);
        }
    }
}

/// What an allocation holds that stays in its place.
proof fn lemma_same_bytes<M: Memory, H>(
    before: Talloc<M, H>,
    after: Talloc<M, H>,
    ptr: int,
    layout: Layout,
)
    requires
        ptr % 8 == 0,
        forall|a: int|
            ptr <= a < ptr + layout.size() ==> #[trigger] after.words()[a] == before.words()[a],
    ensures
        forall|i: int|
            0 <= i < layout.size() ==> #[trigger] byte_at(after.words(), ptr + i) == byte_at(
                before.words(),
                ptr + i,
            ),
{
    assert forall|i: int| 0 <= i < layout.size() implies #[trigger] byte_at(after.words(), ptr + i)
        == byte_at(before.words(), ptr + i) by {
        let w = ptr + i - (ptr + i) % 8;
        assert(ptr <= w < ptr + layout.size());
        assert(after.words()[w] == before.words()[w]);
    }
}

/// What an allocation holds that is copied to a larger one.
proof fn lemma_content_moved<M: Memory, H>(
    s0: Talloc<M, H>,
    s1: Talloc<M, H>,
    s2: Talloc<M, H>,
    after: Talloc<M, H>,
    ptr: int,
    layout: Layout,
    new_ptr: int,
    new_layout: Layout,
)
    requires
        ptr % 8 == 0,
        new_ptr % 8 == 0,
        layout.size() < new_layout.size(),
        same_allocation(s0, s1, ptr, layout),
        copied(s1.words(), s2.words(), ptr, new_ptr, layout.size() as int),
        same_allocation(s2, after, new_ptr, new_layout),
    ensures
        forall|i: int|
            0 <= i < layout.size() ==> #[trigger] byte_at(after.words(), new_ptr + i) == byte_at(
                s0.words(),
                ptr + i,
            ),
        forall|k: int|
            0 <= k && k + 8 <= layout.size() && k % 8 == 0 ==> #[trigger] after.words()[new_ptr + k]
                == s0.words()[ptr + k],
{
    lemma_same_bytes(s0, s1, ptr, layout);
    lemma_same_bytes(s2, after, new_ptr, new_layout);
    law_copied(s1.words(), s2.words(), ptr, new_ptr, layout.size() as int);
    assert forall|i: int| 0 <= i < layout.size() implies #[trigger] byte_at(
        after.words(),
        new_ptr + i,
    ) == byte_at(s0.words(), ptr + i) by {
        assert(byte_at(s2.words(), new_ptr + i) == byte_at(s1.words(), ptr + i));
        assert(byte_at(s1.words(), ptr + i) == byte_at(s0.words(), ptr + i));
    }
    assert forall|k: int| 0 <= k && k + 8 <= layout.size() && k % 8 == 0 implies #[trigger] after.words()[
    new_ptr + k] == s0.words()[ptr + k] by {
        assert(after.words()[new_ptr + k] == s2.words()[new_ptr + k]);
        assert(s2.words()[new_ptr + k] == s1.words()[ptr + k]);
        assert(s1.words()[ptr + k] == s0.words()[ptr + k]);
    }
}

/// An operation on the chunk at `b` alone leaves the other allocations alone.
proof fn lemma_others_spared<M: Memory, H>(before: Talloc<M, H>, after: Talloc<M, H>, b: int)
    requires
        before.wf(),
        before.chunks@.dom().contains(b),
        before.chunks@[b].used is Some,
        kept(before.heap(), before.words(), after.heap(), after.words(), before.bins()),
        forall|c: int| #[trigger]
            before.chunks@.dom().contains(c) && before.chunks@[c].used is Some && c != b
                ==> after.chunks@.dom().contains(c) && after.chunks@[c] == before.chunks@[c],
    ensures
        forall|other: int, held: Layout| #[trigger]
            before.heap().allocated(other, held) && other != before.chunks@[b].used->0.ptr
                ==> same_allocation(before, after, other, held),
{
    before.lemma_laid_out();
    let c0 = before.chunks@;
    assert forall|other: int, held: Layout| #[trigger]
        before.heap().allocated(other, held) && other
            != c0[b].used->0.ptr implies same_allocation(before, after, other, held) by {
        let d = choose|d: int| #[trigger]
            c0.dom().contains(d) && c0[d].used == Some(Use { ptr: other, layout: held });
        assert(chunk_fits(before.alloc_base as int, before.alloc_acme as int, d, c0[d]));
        assert(after.chunks@.dom().contains(d));
    }
}

impl<M: Memory, H> Talloc<M, H> {
    /// Where the payloads of two allocations of different sizes lie.
    proof fn lemma_payloads_apart(&self, ptr: int, layout: Layout, new_ptr: int, new_layout: Layout)
        requires
            self.recorded(),
            self.heap().allocated(ptr, layout),
            self.heap().allocated(new_ptr, new_layout),
            layout.size() < new_layout.size(),
        ensures
            ptr != new_ptr,
            ptr % 8 == 0,
            new_ptr % 8 == 0,
            0 < ptr,
            0 < new_ptr,
            round_up(ptr + layout.size(), 8) <= new_ptr || round_up(new_ptr + new_layout.size(), 8)
                <= ptr,
            round_up(ptr + layout.size(), 8) <= self.alloc_acme,
            round_up(new_ptr + new_layout.size(), 8) <= self.alloc_acme,
            ptr + layout.size() + 7 <= u64::MAX,
            new_ptr + layout.size() + 7 <= u64::MAX,
            forall|a: int|
                #![trigger self.words().dom().contains(a)]
                a % 8 == 0 && (ptr <= a < ptr + layout.size() || new_ptr <= a < new_ptr
                    + new_layout.size()) ==> self.words().dom().contains(a),
    {
        let c0 = self.chunks@;
        let lo = self.alloc_base as int;
        let hi = self.alloc_acme as int;
        self.lemma_locate(ptr, layout);
        self.lemma_locate(new_ptr, new_layout);
        let b = self.heap().chunk_of(ptr);
        let d = self.heap().chunk_of(new_ptr);
        assert(b != d);
        self.lemma_laid_out();
        assert(c0[b].acme <= d || c0[d].acme <= b);
    }

    /// A copy from one allocation to another changes payload alone.
    proof fn lemma_copied(before: Self, after: Self, new_ptr: int, new_layout: Layout, count: int)
        requires
            before.recorded(),
            before.heap().allocated(new_ptr, new_layout),
            8 * count < new_layout.size() + 8,
            after.heap() == before.heap(),
            forall|a: int|
                !(new_ptr <= a < new_ptr + 8 * count) ==> #[trigger] after.words()[a]
                    == before.words()[a],
        ensures
            forall|a: int|
                !in_payload(before.chunks@, a) ==> #[trigger] after.words()[a] == before.words()[a],
            forall|other: int, held: Layout| #[trigger]
                before.heap().allocated(other, held) && other != new_ptr ==> same_allocation(
                    before,
                    after,
                    other,
                    held,
                ),
    {
        let c0 = before.chunks@;
        before.lemma_laid_out();
        before.lemma_locate(new_ptr, new_layout);
        let d = before.heap().chunk_of(new_ptr);
        assert(new_ptr + 8 * count <= c0[d].acme);
        assert forall|other: int, held: Layout| #[trigger]
            before.heap().allocated(other, held) && other != new_ptr implies same_allocation(
            before,
            after,
            other,
            held,
        ) by {
            before.lemma_locate(other, held);
            let f = before.heap().chunk_of(other);
            assert(f != d);
            assert(c0[f].acme <= d || c0[d].acme <= f);
        }
    }

    /// Copies what the allocation at `ptr`, made for `layout`, holds to the larger one
    /// at `new_ptr`, made for `new_layout`.
    fn copy_payload(&mut self, ptr: u64, layout: Layout, new_ptr: u64, Ghost(new_layout): Ghost<Layout>)
        requires
            old(self).wf(),
            old(self).heap().allocated(ptr as int, layout),
            old(self).heap().allocated(new_ptr as int, new_layout),
            layout.size() < new_layout.size(),
        ensures
            final(self).wf(),
            *final(self) == (Talloc { memory: final(self).memory, ..*old(self) }),
            ptr != new_ptr,
            copied(
                old(self).words(),
                final(self).words(),
                ptr as int,
                new_ptr as int,
                layout.size() as int,
            ),
            forall|other: int, held: Layout| #[trigger]
                old(self).heap().allocated(other, held) && other != new_ptr ==> same_allocation(
                    *old(self),
                    *final(self),
                    other,
                    held,
                ),
    {
        let ghost s0 = *self;
        proof {
            s0.lemma_payloads_apart(ptr as int, layout, new_ptr as int, new_layout);
        }
        assert(s0.words() == s0.memory.words());
        assert forall|k: int|
            0 <= k < layout.size() && k % 8 == 0 implies #[trigger] self.memory.words().dom().contains(
            ptr + k,
        ) by {
            assert(s0.words().dom().contains(ptr + k));
        }
        assert forall|k: int|
            0 <= k < layout.size() && k % 8 == 0 implies #[trigger] self.memory.words().dom().contains(
            new_ptr + k,
        ) by {
            assert(s0.words().dom().contains(new_ptr + k));
        }
        copy_nonoverlapping(&mut self.memory, ptr, new_ptr, layout.size());
        proof {
            assert(self.words() == self.memory.words());
            let count = (layout.size() + 7) / 8;
            assert(new_ptr + 8 * count == round_up(new_ptr + layout.size(), 8));
            Self::lemma_copied(s0, *self, new_ptr as int, new_layout, count as int);
            Self::lemma_payload(s0, *self);
        }
    }

    /// What is free above a reserved chunk ends with the heap at most.
    proof fn lemma_free_above(&self, b: int)
        requires
            self.wf(),
            self.chunks@.dom().contains(b),
        ensures
            ({
                let e = self.chunks@[b].acme;
                is_free(self.chunks@, e) ==> e + 24 <= self.chunks@[e].acme <= self.alloc_acme
            }),
    {
        self.lemma_laid_out();
        let e = self.chunks@[b].acme;
        if is_free(self.chunks@, e) {
            assert(chunk_fits(self.alloc_base as int, self.alloc_acme as int, e, self.chunks@[e]));
        }
    }

    /// The size of the free chunk above the reserved chunk at `b`, which ends at `acme`,
    /// if there is one.
    fn free_size_above(&self, acme: u64, Ghost(b): Ghost<int>) -> (size: Option<u64>)
        requires
            self.wf(),
            self.chunks@.dom().contains(b),
            self.chunks@[b].acme == acme,
            self.chunks@[b].used is Some,
        ensures
            size is Some == is_free(self.chunks@, acme as int),
            size matches Some(n) ==> {
                &&& self.chunks@[acme as int].acme == acme + n
                &&& acme + n <= self.alloc_acme
            },
    {
        let ghost chunks = self.chunks@;
        proof {
            self.lemma_laid_out();
            self.lemma_free_above(b);
            assert(chunk_fits(self.alloc_base as int, self.alloc_acme as int, b, chunks[b]));
        }
        if acme == self.alloc_acme {
            return None;
        }
        proof {
            assert(followed(chunks, self.alloc_acme as int, b));
            assert(tag_ok(self.memory.words(), chunks, acme as int));
            self.lemma_first_word(acme as int);
        }
        match HighChunk::from_ptr(&self.memory, acme) {
            HighChunk::Full(_) => None,
            HighChunk::Free(free_chunk) => {
                proof {
                    assert(is_free(chunks, acme as int));
                    self.lemma_sizes(acme as int);
                }
                Some(self.memory.read(free_chunk.size_ptr()))
            },
        }
    }

    /// Gives the allocation at `ptr`, which was made for `layout`, `new_size` bytes
    /// where it is, if that is possible.
    fn grow_in_place(&mut self, ptr: u64, layout: Layout, new_size: u64) -> (done: bool)
        requires
            old(self).wf(),
            old(self).heap().allocated(ptr as int, layout),
            layout.size() <= new_size,
            Layout::valid_parts(new_size as int, layout.align() as int),
        ensures
            final(self).wf(),
            done == (old(self).heap().is_roomy(ptr as int, new_size as int) || old(
                self).heap().is_extensible(ptr as int, new_size as int)),
            !done ==> *final(self) == *old(self),
            done && old(self).heap().is_roomy(ptr as int, new_size as int) ==> final(self).heap()
                == old(self).heap().relaid(ptr as int, layout, new_size) && final(self).words()
                == old(self).words(),
            done && !old(self).heap().is_roomy(ptr as int, new_size as int) ==> final(self).heap()
                == old(self).heap().extended(ptr as int, layout, new_size),
            final(self).bins() == old(self).bins(),
            final(self).handler() == old(self).handler(),
            kept(
                old(self).heap(),
                old(self).words(),
                final(self).heap(),
                final(self).words(),
                old(self).bins(),
            ),
            !done ==> layout.size() < new_size,
    {
        let ghost s0 = *self;
        let (chunk_ptr, chunk_acme, _) = self.locate(ptr, layout);
        let ghost b = chunk_ptr as int;
        let ghost u = Heap::resized(ptr as int, layout, new_size);
        proof {
            s0.lemma_locate(ptr as int, layout);
            lemma_new_size(b, chunk_acme as int, self.alloc_acme as int, ptr as int, layout, new_size);
        }
        // beyond the last address there is nothing to grow into
        if new_size > u64::MAX - 7 - ptr {
            proof {
                s0.lemma_free_above(b);
            }
            return false;
        }
        let new_req_acme: u64 = req_acme(chunk_ptr, ptr, new_size);
        // the chunk may be large enough as it is
        if new_req_acme <= chunk_acme {
            proof {
                self.chunks@ = self.chunks@.insert(
                    b,
                    Chunk { acme: chunk_acme as int, used: Some(u) },
                );
                Self::lemma_relaid(s0, *self, b, u);
            }
            return true;
        }
        // otherwise, the chunk above may be free and large enough; as free chunks do
        // not border on one another, there is no need to look further
        match self.free_size_above(chunk_acme, Ghost(b)) {
            None => false,
            Some(high_chunk_size) => {
                if high_chunk_size < new_req_acme - chunk_acme {
                    return false;
                }
                self.stretch(chunk_ptr, chunk_acme, high_chunk_size, new_req_acme, Ghost(u));
                true
            },
        }
    }
}

impl<M: Memory, H: OomHandler<M>> Talloc<M, H> {
    /// Moves the allocation at `ptr` to a larger one.
    #[verifier::rlimit(30)]
    fn relocate(&mut self, ptr: u64, layout: Layout, new_size: u64) -> (allocation: Result<
        u64,
        AllocError,
    >)
        requires
            old(self).wf(),
            old(self).heap().allocated(ptr as int, layout),
            layout.size() < new_size,
            Layout::valid_parts(new_size as int, layout.align() as int),
            !H::may_free(*old(self), ptr as int),
        ensures
            final(self).wf(),
            moved(
                *old(self),
                ptr as int,
                layout,
                Layout::of(new_size, layout.align()),
                *final(self),
                allocation,
            ),
            allocation matches Ok(new_ptr) ==> {
                &&& final(self).heap().allocated(
                    new_ptr as int,
                    Layout::of(new_size, layout.align()),
                )
                &&& forall|i: int|
                    0 <= i < layout.size() ==> #[trigger] byte_at(final(self).words(), new_ptr + i)
                        == byte_at(old(self).words(), ptr + i)
                &&& forall|k: int|
                    0 <= k && k + 8 <= layout.size() && k % 8 == 0 ==> #[trigger] final(
                        self).words()[new_ptr + k] == old(self).words()[ptr + k]
            },
            allocation matches Ok(new_ptr) ==> new_ptr != ptr && forall|held: Layout|
                !#[trigger] final(self).heap().allocated(ptr as int, held),
            allocation is Err ==> same_allocation(*old(self), *final(self), ptr as int, layout),
            forall|other: int, held: Layout| #[trigger]
                old(self).heap().allocated(other, held) && other != ptr && (!H::may_free(
                    *old(self),
                    other,
                ) || old(self).heap().fit(Layout::of(new_size, layout.align())) is Some)
                    ==> same_allocation(*old(self), *final(self), other, held),
    {
        let ghost s0 = *self;
        let new_layout = Layout::from_valid_parts(new_size, layout.align());
        match self.malloc(new_layout) {
            Ok(new_ptr) => {
                let ghost s1 = *self;
                self.copy_payload(ptr, layout, new_ptr, Ghost(new_layout));
                let ghost s2 = *self;
                proof {
                    s1.lemma_payloads_apart(ptr as int, layout, new_ptr as int, new_layout);
                }
                assert(s2.heap() == s1.heap());
                assert(same_allocation(s0, s1, ptr as int, layout));
                self.free(ptr, layout);
                proof {
                    assert(same_allocation(s2, *self, new_ptr as int, new_layout));
                    lemma_content_moved(s0, s1, s2, *self, ptr as int, layout, new_ptr as int, new_layout);
                    assert forall|other: int, held: Layout| #[trigger]
                        s0.heap().allocated(other, held) && other != ptr && (!H::may_free(s0, other)
                            || s0.heap().fit(new_layout) is Some) implies same_allocation(
                        s0,
                        *self,
                        other,
                        held,
                    ) by {
                        assert(same_allocation(s0, s1, other, held));
                        assert(same_allocation(s1, s2, other, held));
                        assert(s2.heap().allocated(other, held));
                        assert(same_allocation(s2, *self, other, held));
                        assert forall|a: int|
                            other <= a < other + held.size() implies #[trigger] self.words()[a]
                            == s0.words()[a] by {
                            assert(self.words()[a] == s2.words()[a]);
                            assert(s2.words()[a] == s1.words()[a]);
                        }
                    }
                }
                proof {
                    assert forall|other: int, held: Layout| #[trigger]
                        s1.heap().allocated(other, held) && other != ptr && other
                            != new_ptr implies same_allocation(s1, *self, other, held) by {
                        assert(same_allocation(s1, s2, other, held));
                        assert(s2.heap().allocated(other, held));
                        assert(same_allocation(s2, *self, other, held));
                        assert forall|a: int|
                            other <= a < other + held.size() implies #[trigger] self.words()[a]
                            == s1.words()[a] by {
                            assert(self.words()[a] == s2.words()[a]);
                        }
                    }
                    assert(moved_through(
                        s0,
                        ptr as int,
                        layout,
                        new_layout,
                        s1,
                        s2.words(),
                        *self,
                        new_ptr,
                    ));
                }
                Ok(new_ptr)
            },
            Err(error) => Err(error),
        }
    }

    /// Gives the allocation at `ptr`, which was made for `layout`, `new_size` bytes:
    /// where it is, if its chunk is large enough or can be made so, and else in a
    /// new place, to which what it holds is copied.
    pub fn grow(&mut self, ptr: u64, layout: Layout, new_size: u64) -> (allocation: Result<
        u64,
        AllocError,
    >)
        requires
            old(self).wf(),
            old(self).heap().allocated(ptr as int, layout),
            layout.size() <= new_size,
            Layout::valid_parts(new_size as int, layout.align() as int),
            !H::may_free(*old(self), ptr as int),
        ensures
            final(self).wf(),
            old(self).heap().is_roomy(ptr as int, new_size as int) ==> {
                &&& allocation == Ok::<u64, AllocError>(ptr)
                &&& final(self).heap() == old(self).heap().relaid(ptr as int, layout, new_size)
                &&& final(self).words() == old(self).words()
                &&& final(self).bins() == old(self).bins()
                &&& final(self).handler() == old(self).handler()
            },
            !old(self).heap().is_roomy(ptr as int, new_size as int) && old(
                self).heap().is_extensible(ptr as int, new_size as int) ==> {
                &&& allocation == Ok::<u64, AllocError>(ptr)
                &&& final(self).heap() == old(self).heap().extended(ptr as int, layout, new_size)
                &&& final(self).bins() == old(self).bins()
                &&& final(self).handler() == old(self).handler()
                &&& kept(
                    old(self).heap(),
                    old(self).words(),
                    final(self).heap(),
                    final(self).words(),
                    old(self).bins(),
                )
            },
            !old(self).heap().is_roomy(ptr as int, new_size as int) && !old(
                self).heap().is_extensible(ptr as int, new_size as int) ==> moved(
                *old(self),
                ptr as int,
                layout,
                Layout::of(new_size, layout.align()),
                *final(self),
                allocation,
            ),
            allocation matches Ok(new_ptr) ==> {
                &&& final(self).heap().allocated(
                    new_ptr as int,
                    Layout::of(new_size, layout.align()),
                )
                &&& forall|i: int|
                    0 <= i < layout.size() ==> #[trigger] byte_at(final(self).words(), new_ptr + i)
                        == byte_at(old(self).words(), ptr + i)
                &&& forall|k: int|
                    0 <= k && k + 8 <= layout.size() && k % 8 == 0 ==> #[trigger] final(
                        self).words()[new_ptr + k] == old(self).words()[ptr + k]
            },
            allocation matches Ok(new_ptr) ==> new_ptr == ptr || forall|held: Layout|
                !#[trigger] final(self).heap().allocated(ptr as int, held),
            allocation is Err ==> same_allocation(*old(self), *final(self), ptr as int, layout),
            forall|other: int, held: Layout| #[trigger]
                old(self).heap().allocated(other, held) && other != ptr && (!H::may_free(
                    *old(self),
                    other,
                ) || old(self).heap().is_roomy(ptr as int, new_size as int) || old(
                    self).heap().is_extensible(ptr as int, new_size as int) || old(
                    self).heap().fit(Layout::of(new_size, layout.align())) is Some)
                    ==> same_allocation(*old(self), *final(self), other, held),
    {
        let ghost s0 = *self;
        if self.grow_in_place(ptr, layout, new_size) {
            proof {
                let b = s0.heap().chunk_of(ptr as int);
                s0.lemma_locate(ptr as int, layout);
                let c0 = s0.chunks@;
                let e = c0[b].acme;
                s0.lemma_laid_out();
                s0.lemma_free_above(b);
                assert(self.chunks@ == self.heap().chunks);
                assert forall|c: int| #[trigger]
                    c0.dom().contains(c) && c0[c].used is Some && c
                        != b implies self.chunks@.dom().contains(c) && self.chunks@[c] == c0[c] by {
                    if is_free(c0, e) {
                        assert(c0[c].acme <= e || c0[e].acme <= c);
                        assert(chunk_fits(s0.alloc_base as int, s0.alloc_acme as int, c, c0[c]));
                    }
                }
                lemma_others_spared(s0, *self, b);
                assert(self.chunks@.dom().contains(b) && self.chunks@[b].used == Some(
                    Heap::resized(ptr as int, layout, new_size),
                ));
                assert(self.heap().allocated(ptr as int, Layout::of(new_size, layout.align())));
                assert(e <= self.chunks@[b].acme);
                lemma_same_bytes(s0, *self, ptr as int, layout);
            }
            Ok(ptr)
        } else {
            self.relocate(ptr, layout, new_size)
        }
    }
}

} // verus!
