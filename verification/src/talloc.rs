use crate::chunk::tag_ptr_of;
use crate::llist::{lemma_thread_frame, node_ok, threaded};
use crate::memory::Memory;
use crate::model::{
    apart, bucket_of, chunk_fits, ends_free, followed, in_free, in_payload, is_free, is_listed,
    lemma_list_position, lemma_splice, linked, listed, lone, merged, placed, same_outside, use_fits,
    Chunk, Heap,
};
use crate::span::{address, Span};
use crate::tag::{lemma_tag_word, tag_word};
use crate::word::round_down;
use vstd::prelude::*;

verus! {

/// The allocator.
///
/// Each chunk of the heap is free or reserved. A free chunk holds a list node (two
/// words), its size, and, in its last word, its size again. A reserved chunk
/// starts with a tag.
pub struct Talloc<M, H> {
    /// The memory that the allocator works on.
    pub(crate) memory: M,
    pub(crate) oom_handler: H,
    pub(crate) arena: Span,
    pub(crate) alloc_base: u64,
    pub(crate) alloc_acme: u64,
    pub(crate) is_top_free: bool,
    /// The availability flags of the lower half of the buckets.
    pub(crate) availability_low: u64,
    /// The availability flags of the upper half of the buckets.
    pub(crate) availability_high: u64,
    /// The address of the words that hold each bucket's first node.
    pub(crate) llists: u64,
    pub(crate) chunks: Ghost<Map<int, Chunk>>,
    pub(crate) lists: Ghost<Seq<Seq<int>>>,
}

/// Every word from `lo` to `hi` can be read and written.
pub open spec fn reaches(words: Set<int>, lo: int, hi: int) -> bool {
    forall|a: int| lo <= a < hi && a % 8 == 0 ==> #[trigger] words.contains(a)
}

/// Every free chunk holds its size twice.
pub open spec fn sized(m: Map<int, u64>, chunks: Map<int, Chunk>) -> bool {
    forall|b: int| #[trigger]
        is_free(chunks, b) ==> m[b + 16] == chunks[b].acme - b && m[chunks[b].acme - 8]
            == chunks[b].acme - b
}

/// Whether the availability flag of bucket `g` is set.
pub open spec fn available(low: u64, high: u64, g: int) -> bool {
    if g < 64 {
        (low >> (g as u64)) & 1 == 1
    } else {
        (high >> ((g - 64) as u64)) & 1 == 1
    }
}

/// The availability flags tell which buckets hold a chunk.
pub open spec fn flagged(low: u64, high: u64, lists: Seq<Seq<int>>) -> bool {
    forall|g: int| 0 <= g < 128 ==> (available(low, high, g) <==> (#[trigger] lists[g]).len() > 0)
}

/// Every reserved chunk starts with its tag, and the word below an allocation
/// holds the tag or its address.
pub open spec fn tagged(m: Map<int, u64>, chunks: Map<int, Chunk>) -> bool {
    forall|b: int| #[trigger]
        chunks.dom().contains(b) ==> tag_ok(m, chunks, b)
}

/// Between two states of memory, only words of the lists and of free chunks differ.
pub open spec fn frame(
    m: Map<int, u64>,
    m2: Map<int, u64>,
    llists: int,
    chunks: Map<int, Chunk>,
) -> bool {
    &&& m2.dom() == m.dom()
    &&& forall|a: int|
        !(llists <= a < llists + 1024) && !in_free(chunks, a) ==> #[trigger] m2[a] == m[a]
}

/// No word of a reserved chunk lies in a free one.
pub proof fn lemma_not_in_free(chunks: Map<int, Chunk>, b: int)
    requires
        apart(chunks),
        chunks.dom().contains(b),
        chunks[b].used is Some,
    ensures
        forall|a: int| b <= a < chunks[b].acme ==> !#[trigger] in_free(chunks, a),
{
}

/// The words of a reserved chunk below its allocation are no user's.
proof fn lemma_not_in_payload(chunks: Map<int, Chunk>, b: int, lo: int, hi: int)
    requires
        placed(chunks, lo, hi),
        apart(chunks),
        chunks.dom().contains(b),
        chunks[b].used is Some,
    ensures
        forall|a: int| b <= a < chunks[b].used->0.ptr ==> !#[trigger] in_payload(chunks, a),
{
}

/// A tag that no step has touched.
proof fn lemma_tag_kept(
    m: Map<int, u64>,
    m2: Map<int, u64>,
    llists: int,
    chunks: Map<int, Chunk>,
    chunks2: Map<int, Chunk>,
    b: int,
    t: int,
    y: int,
)
    requires
        frame_but(m, m2, llists, chunks, t, y) || frame_but(m, m2, llists, chunks2, t, y),
        apart(chunks),
        apart(chunks2),
        chunks.dom().contains(b),
        chunks2.dom().contains(b),
        chunks2[b] == chunks[b],
        chunks[b].used matches Some(u) ==> use_fits(b, chunks[b].acme, u),
        chunks[b].acme <= llists || llists + 1024 <= b,
        !(b <= t < chunks[b].acme),
        !(b <= y < chunks[b].acme),
        tag_ok(m, chunks, b),
        ends_free(chunks2, b) == ends_free(chunks, b),
    ensures
        tag_ok(m2, chunks2, b),
{
    if chunks[b].used is Some {
        let u = chunks[b].used->0;
        lemma_not_in_free(chunks, b);
        lemma_not_in_free(chunks2, b);
        assert(!in_free(chunks, b) && !in_free(chunks, u.ptr - 8));
        assert(!in_free(chunks2, b) && !in_free(chunks2, u.ptr - 8));
        assert(m2[b] == m[b]);
        assert(m2[u.ptr - 8] == m[u.ptr - 8]);
    }
}

/// As `frame`, but the words at `t` and `y` may differ too.
pub open spec fn frame_but(
    m: Map<int, u64>,
    m2: Map<int, u64>,
    llists: int,
    chunks: Map<int, Chunk>,
    t: int,
    y: int,
) -> bool {
    &&& m2.dom() == m.dom()
    &&& forall|a: int|
        !(llists <= a < llists + 1024) && !in_free(chunks, a) && a != t && a
            != y ==> #[trigger] m2[a] == m[a]
}

/// What is free in `small` is free in `big`.
pub open spec fn frees_within(small: Map<int, Chunk>, big: Map<int, Chunk>) -> bool {
    forall|a: int| #[trigger] in_free(small, a) ==> in_free(big, a)
}

/// One more step on the record.
pub proof fn lemma_frame_step(
    m: Map<int, u64>,
    m1: Map<int, u64>,
    m2: Map<int, u64>,
    llists: int,
    small: Map<int, Chunk>,
    big: Map<int, Chunk>,
    t: int,
    y: int,
)
    requires
        frame_but(m, m1, llists, big, t, y),
        frame(m1, m2, llists, small),
        frees_within(small, big),
    ensures
        frame_but(m, m2, llists, big, t, y),
{
    assert forall|a: int|
        !(llists <= a < llists + 1024) && !in_free(big, a) && a != t && a
            != y implies #[trigger] m2[a] == m[a] by {
        assert(m1[a] == m[a]);
    }
}

/// Bucket words may stand at `llists`.
pub open spec fn has_bins(words: Set<int>, llists: int) -> bool {
    &&& llists % 8 == 0
    &&& llists + 1024 <= u64::MAX
    &&& reaches(words, llists, llists + 1024)
}

/// As `may_use`.
#[verifier::opaque]
pub open spec fn usable(words: Set<int>, llists: int, arena: Span) -> bool {
    may_use(words, llists, arena)
}

/// The allocator may use `arena`: it does not hold the null address, its words can
/// be read and written, and the bucket words are not among them.
pub open spec fn may_use(words: Set<int>, llists: int, arena: Span) -> bool {
    &&& !arena.has(0)
    &&& arena.inward() matches Span::Sized { base, acme } ==> {
        &&& address(base) < address(acme)
        &&& reaches(words, address(base), address(acme))
        &&& address(acme) <= llists || llists + 1024 <= address(base)
    }
}

/// The heap from `lo` to `hi`, unless it is empty, fills the arena but for less
/// than what a chunk could be made of.
#[verifier::opaque]
pub open spec fn fills(arena: Span, lo: int, hi: int) -> bool {
    lo < hi ==> {
        &&& arena.inward() matches Span::Sized { base, acme }
        &&& address(base) <= lo <= address(base) + 24
        &&& hi <= address(acme) <= hi + 24
    }
}

/// A heap that is not empty lies in its arena.
pub proof fn lemma_in_arena(words: Set<int>, llists: int, arena: Span, lo: int, hi: int)
    requires
        usable(words, llists, arena),
        fills(arena, lo, hi),
        lo < hi,
    ensures
        arena.inward() matches Span::Sized { base, acme } && address(base) < address(acme) && address(
            base,
        ) <= lo <= address(base) + 24 && hi <= address(acme) <= hi + 24,
{
    reveal(usable);
    reveal(fills);
}

/// The tag of the reserved chunk at `b`, and the way to it, stand in memory.
pub open spec fn tag_ok(m: Map<int, u64>, chunks: Map<int, Chunk>, b: int) -> bool {
    chunks[b].used matches Some(u) ==> m[b] == tag_word(chunks[b].acme, ends_free(chunks, b)) && (
    u.ptr - 8 != b ==> m[u.ptr - 8] == b)
}

/// What an operation leaves alone: memory outside the heap and the bucket words,
/// and what the allocations hold that stay in their place.
pub open spec fn kept(
    before: Heap,
    m: Map<int, u64>,
    after: Heap,
    m2: Map<int, u64>,
    llists: int,
) -> bool {
    &&& m2.dom() == m.dom()
    &&& forall|a: int|
        !(llists <= a < llists + 1024) && !(before.base <= a < before.acme) && !(after.base <= a
            < after.acme) ==> #[trigger] m2[a] == m[a]
    &&& forall|b: int, a: int|
        #![trigger before.chunks.dom().contains(b), m2[a]]
        before.chunks.dom().contains(b) && after.chunks.dom().contains(b)
            && before.chunks[b].used is Some && after.chunks[b].used is Some
            && before.chunks[b].used->0.ptr == after.chunks[b].used->0.ptr
            && before.chunks[b].used->0.ptr <= a < before.chunks[b].acme && a
            < after.chunks[b].acme ==> m2[a] == m[a]
}

impl<M: Memory, H> Talloc<M, H> {
    /// What the allocator holds.
    pub open(crate) spec fn heap(&self) -> Heap {
        Heap {
            arena: self.arena,
            base: self.alloc_base as int,
            acme: self.alloc_acme as int,
            chunks: self.chunks@,
            lists: self.lists@,
        }
    }

    /// The words of the memory that the allocator works on, by address.
    pub open(crate) spec fn words(&self) -> Map<int, u64> {
        self.memory.words()
    }

    /// What is called when no free chunk is large enough.
    pub open(crate) spec fn handler(&self) -> H {
        self.oom_handler
    }

    /// Whether the chunk at the top of the heap is marked as free. Where there is no
    /// heap, the mark says how the allocator came to have none.
    pub open(crate) spec fn top_free(&self) -> bool {
        self.is_top_free
    }

    /// The address of the words that hold each bucket's first node.
    pub open(crate) spec fn bins(&self) -> int {
        self.llists as int
    }

    /// The free chunks are recorded: they stand in the lists, and the lists, the
    /// sizes and the availability flags stand as they should.
    #[verifier::opaque]
    pub open(crate) spec fn recorded(&self) -> bool {
        let m = self.memory.words();
        let chunks = self.chunks@;
        &&& self.alloc_base <= self.alloc_acme
        &&& self.alloc_base % 8 == 0
        &&& self.alloc_acme % 8 == 0
        &&& placed(chunks, self.alloc_base as int, self.alloc_acme as int)
        &&& apart(chunks)
        &&& listed(chunks, self.lists@)
        &&& self.llists % 8 == 0
        &&& self.llists + 1024 <= u64::MAX
        &&& reaches(m.dom(), self.llists as int, self.llists + 1024)
        &&& reaches(m.dom(), self.alloc_base as int, self.alloc_acme as int)
        &&& self.alloc_base < self.alloc_acme ==> self.alloc_acme <= self.llists || self.llists
            + 1024 <= self.alloc_base
        &&& threaded(m, self.llists as int, self.lists@)
        &&& sized(m, chunks)
        &&& flagged(self.availability_low, self.availability_high, self.lists@)
    }

    /// What holds of an allocator between any two calls.
    pub open(crate) spec fn wf(&self) -> bool {
        &&& self.intact()
        &&& usable(self.memory.words().dom(), self.llists as int, self.arena)
        &&& fills(self.arena, self.alloc_base as int, self.alloc_acme as int)
    }

    /// The chunks and what stands in memory of them are in order.
    pub open(crate) spec fn intact(&self) -> bool {
        &&& self.recorded()
        &&& linked(self.chunks@, self.alloc_base as int, self.alloc_acme as int)
        &&& merged(self.chunks@)
        &&& tagged(self.memory.words(), self.chunks@)
        &&& self.alloc_base < self.alloc_acme ==> self.is_top_free == ends_free(
            self.chunks@,
            self.alloc_acme as int,
        )
    }

    /// Where the chunks and the bucket words lie.
    pub open(crate) spec fn laid_out(&self) -> bool {
        &&& self.alloc_base <= self.alloc_acme
        &&& self.alloc_base % 8 == 0
        &&& self.alloc_acme % 8 == 0
        &&& placed(self.chunks@, self.alloc_base as int, self.alloc_acme as int)
        &&& apart(self.chunks@)
        &&& reaches(self.memory.words().dom(), self.alloc_base as int, self.alloc_acme as int)
        &&& self.alloc_base < self.alloc_acme ==> self.alloc_acme <= self.llists || self.llists
            + 1024 <= self.alloc_base
        &&& self.llists + 1024 <= u64::MAX
    }

    pub(crate) proof fn lemma_laid_out(&self)
        requires
            self.recorded(),
        ensures
            self.laid_out(),
    {
        reveal(Talloc::recorded);
    }

    /// A free chunk holds its size at both ends.
    pub(crate) proof fn lemma_sizes(&self, b: int)
        requires
            self.recorded(),
            is_free(self.chunks@, b),
        ensures
            self.memory.words().dom().contains(b + 16),
            self.memory.words()[b + 16] == self.chunks@[b].acme - b,
            self.memory.words().dom().contains(self.chunks@[b].acme - 8),
            self.memory.words()[self.chunks@[b].acme - 8] == self.chunks@[b].acme - b,
            chunk_fits(self.alloc_base as int, self.alloc_acme as int, b, self.chunks@[b]),
    {
        reveal(Talloc::recorded);
    }

    /// An operation on the chunks between `x` and `y` leaves them in order.
    pub(crate) proof fn lemma_replace(before: Self, after: Self, x: int, y: int, t: int)
        requires
            before.intact(),
            after.recorded(),
            after.llists == before.llists,
            same_outside(before.chunks@, after.chunks@, x, y),
            x <= y,
            x <= before.alloc_acme,
            x <= t <= y,
            forall|b: int| #[trigger]
                before.chunks@.dom().contains(b) ==> (b < x ==> before.chunks@[b].acme <= x) && (b
                    < y ==> before.chunks@[b].acme <= y),
            forall|b: int| #[trigger]
                after.chunks@.dom().contains(b) && x <= b < y ==> after.chunks@[b].acme <= y
                    && followed(after.chunks@, after.alloc_acme as int, b) && tag_ok(
                    after.memory.words(),
                    after.chunks@,
                    b,
                ),
            after.chunks@.dom().contains(x) || x == after.alloc_acme || forall|b: int| #[trigger]
                before.chunks@.dom().contains(b) ==> x <= b,
            after.alloc_base < after.alloc_acme ==> after.chunks@.dom().contains(
                after.alloc_base as int,
            ),
            after.alloc_acme == before.alloc_acme || forall|b: int| #[trigger]
                before.chunks@.dom().contains(b) ==> b < y,
            is_free(after.chunks@, x) ==> !ends_free(before.chunks@, x),
            forall|b: int| #[trigger]
                is_free(after.chunks@, b) && x <= b < y ==> lone(after.chunks@, b),
            frame_but(
                before.memory.words(),
                after.memory.words(),
                before.llists as int,
                before.chunks@,
                t,
                y,
            ) || frame_but(
                before.memory.words(),
                after.memory.words(),
                before.llists as int,
                after.chunks@,
                t,
                y,
            ),
            after.chunks@.dom().contains(y) ==> tag_ok(after.memory.words(), after.chunks@, y),
            if y < after.alloc_acme {
                &&& after.alloc_acme == before.alloc_acme
                &&& after.is_top_free == before.is_top_free
                &&& before.alloc_base < before.alloc_acme
            } else {
                after.alloc_base < after.alloc_acme ==> after.is_top_free == ends_free(
                    after.chunks@,
                    after.alloc_acme as int,
                )
            },
        ensures
            after.intact(),
    {
        let m = before.memory.words();
        let m2 = after.memory.words();
        let chunks = before.chunks@;
        let chunks2 = after.chunks@;
        before.lemma_laid_out();
        after.lemma_laid_out();
        lemma_splice(
            chunks,
            before.alloc_base as int,
            before.alloc_acme as int,
            chunks2,
            after.alloc_base as int,
            after.alloc_acme as int,
            x,
            y,
        );
        assert forall|b: int| #[trigger] chunks2.dom().contains(b) implies tag_ok(m2, chunks2, b) by {
            if b < x || y < b {
                assert(chunks.dom().contains(b));
                assert(tag_ok(m, chunks, b));
                assert(ends_free(chunks2, b) == ends_free(chunks, b));
                assert(chunk_fits(
                    before.alloc_base as int,
                    before.alloc_acme as int,
                    b,
                    chunks[b],
                ));
                lemma_tag_kept(m, m2, before.llists as int, chunks, chunks2, b, t, y);
            }
        }
        if after.alloc_base < after.alloc_acme && y < after.alloc_acme {
            assert(ends_free(chunks2, after.alloc_acme as int) == ends_free(
                chunks,
                after.alloc_acme as int,
            ));
        }
    }

    /// What such an operation leaves alone.
    pub(crate) proof fn lemma_kept(before: Self, after: Self, chunks: Map<int, Chunk>, t: int, y: int)
        requires
            before.laid_out(),
            after.laid_out(),
            chunks == before.chunks@ || chunks == after.chunks@,
            frame_but(
                before.memory.words(),
                after.memory.words(),
                before.llists as int,
                chunks,
                t,
                y,
            ),
            after.memory.words()[t] == before.memory.words()[t] || before.llists <= t
                < before.llists + 1024 || before.chunks@.dom().contains(t)
                || after.chunks@.dom().contains(t),
            after.memory.words()[y] == before.memory.words()[y] || before.llists <= y
                < before.llists + 1024 || before.chunks@.dom().contains(y)
                || after.chunks@.dom().contains(y),
        ensures
            kept(
                before.heap(),
                before.words(),
                after.heap(),
                after.words(),
                before.bins(),
            ),
    {
        let m = before.memory.words();
        let m2 = after.memory.words();
        assert forall|b: int, a: int|
            #![trigger before.chunks@.dom().contains(b), m2[a]]
            before.chunks@.dom().contains(b) && after.chunks@.dom().contains(b)
                && before.chunks@[b].used is Some && after.chunks@[b].used is Some
                && before.chunks@[b].used->0.ptr == after.chunks@[b].used->0.ptr
                && before.chunks@[b].used->0.ptr <= a < before.chunks@[b].acme && a
                < after.chunks@[b].acme implies m2[a] == m[a] by {
            lemma_not_in_free(before.chunks@, b);
            lemma_not_in_free(after.chunks@, b);
            assert(!in_free(chunks, a));
        }
    }

    /// Words outside the lists and the free chunks do not matter to the record.
    pub(crate) proof fn lemma_recorded(before: Self, after: Self)
        requires
            before.recorded(),
            after == (Talloc { memory: after.memory, ..before }),
            after.memory.words().dom() == before.memory.words().dom(),
            forall|a: int|
                before.llists <= a < before.llists + 1024 || in_free(before.chunks@, a)
                    ==> #[trigger] after.memory.words()[a] == before.memory.words()[a],
        ensures
            after.recorded(),
    {
        reveal(Talloc::recorded);
        let m = before.memory.words();
        let m2 = after.memory.words();
        let chunks = before.chunks@;
        let lists = before.lists@;
        assert forall|g: int, j: int| 0 <= g < 128 && 0 <= j < lists[g].len() implies m2[
        #[trigger] lists[g][j]] == m[lists[g][j]] && m2[lists[g][j] + 8] == m[lists[g][j] + 8] by {
            let b = lists[g][j];
            assert(is_free(chunks, b));
            assert(chunk_fits(before.alloc_base as int, before.alloc_acme as int, b, chunks[b]));
            assert(in_free(chunks, b));
            assert(in_free(chunks, b + 8));
        }
        lemma_thread_frame(m, m2, before.llists as int, lists);
        assert forall|b: int| #[trigger] is_free(chunks, b) implies m2[b + 16] == chunks[b].acme - b
            && m2[chunks[b].acme - 8] == chunks[b].acme - b by {
            assert(chunk_fits(before.alloc_base as int, before.alloc_acme as int, b, chunks[b]));
            assert(in_free(chunks, b + 16));
            assert(in_free(chunks, chunks[b].acme - 8));
        }
    }

    /// What the allocations hold does not matter to the allocator.
    pub(crate) proof fn lemma_payload(before: Self, after: Self)
        requires
            before.wf(),
            after == (Talloc { memory: after.memory, ..before }),
            after.memory.words().dom() == before.memory.words().dom(),
            forall|a: int|
                !in_payload(before.chunks@, a) ==> #[trigger] after.memory.words()[a]
                    == before.memory.words()[a],
        ensures
            after.wf(),
    {
        let m = before.memory.words();
        let m2 = after.memory.words();
        let chunks = before.chunks@;
        before.lemma_laid_out();
        assert forall|a: int|
            before.llists <= a < before.llists + 1024 || in_free(chunks, a) implies #[trigger] m2[a]
            == m[a] by {
            if in_payload(chunks, a) {
                let b = choose|b: int| #[trigger]
                    chunks.dom().contains(b) && chunks[b].used is Some && chunks[b].used->0.ptr <= a
                        < chunks[b].acme;
                assert(chunk_fits(
                    before.alloc_base as int,
                    before.alloc_acme as int,
                    b,
                    chunks[b],
                ));
                lemma_not_in_free(chunks, b);
            }
        }
        Self::lemma_recorded(before, after);
        assert forall|b: int| #[trigger] chunks.dom().contains(b) implies tag_ok(m2, chunks, b) by {
            assert(tag_ok(m, chunks, b));
            if chunks[b].used is Some {
                let u = chunks[b].used->0;
                assert(chunk_fits(
                    before.alloc_base as int,
                    before.alloc_acme as int,
                    b,
                    chunks[b],
                ));
                lemma_not_in_payload(chunks, b, before.alloc_base as int, before.alloc_acme as int);
                assert(!in_payload(chunks, b));
                assert(!in_payload(chunks, u.ptr - 8));
            }
        }
    }

    /// The record does not depend on whether the top is free.
    pub(crate) proof fn lemma_same_record(before: Self, after: Self)
        requires
            before.recorded(),
            after == (Talloc { is_top_free: after.is_top_free, ..before }),
        ensures
            after.recorded(),
    {
        reveal(Talloc::recorded);
    }

    /// The record does not depend on the reserved chunks.
    pub(crate) proof fn lemma_unreserve(before: Self, after: Self, b: int)
        requires
            before.recorded(),
            before.chunks@.dom().contains(b),
            before.chunks@[b].used is Some,
            after == (Talloc { chunks: after.chunks, ..before }),
            after.chunks@ == before.chunks@.remove(b),
        ensures
            after.recorded(),
    {
        reveal(Talloc::recorded);
        let chunks = before.chunks@;
        let chunks2 = after.chunks@;
        assert forall|c: int| is_free(chunks2, c) == is_free(chunks, c) by {}
        assert(sized(after.memory.words(), chunks2)) by {
            assert forall|c: int| #[trigger] is_free(chunks2, c) implies after.memory.words()[c
                + 16] == chunks2[c].acme - c && after.memory.words()[chunks2[c].acme - 8]
                == chunks2[c].acme - c by {
                assert(is_free(chunks, c));
            }
        }
        assert(listed(chunks2, after.lists@)) by {
            let lists = after.lists@;
            assert forall|g: int, j: int| 0 <= g < 128 && 0 <= j < lists[g].len() implies is_free(
                chunks2,
                #[trigger] lists[g][j],
            ) && bucket_of(chunks2, lists[g][j]) == g by {
                assert(is_free(chunks, lists[g][j]));
            }
            assert forall|c: int| is_free(chunks2, c) implies #[trigger] is_listed(
                chunks2,
                lists,
                c,
            ) by {
                assert(is_free(chunks, c));
                assert(is_listed(chunks, lists, c));
            }
        }
    }

    /// The record does not change when space that no chunk takes becomes reserved.
    pub(crate) proof fn lemma_reserve(before: Self, after: Self, b: int, chunk: Chunk)
        requires
            before.recorded(),
            after == (Talloc { chunks: after.chunks, ..before }),
            after.chunks@ == before.chunks@.insert(b, chunk),
            chunk.used is Some,
            chunk_fits(before.alloc_base as int, before.alloc_acme as int, b, chunk),
            forall|c: int| #[trigger]
                before.chunks@.dom().contains(c) ==> before.chunks@[c].acme <= b || chunk.acme <= c,
        ensures
            after.recorded(),
    {
        reveal(Talloc::recorded);
        let chunks = before.chunks@;
        let chunks2 = after.chunks@;
        assert(!chunks.dom().contains(b));
        assert(sized(after.memory.words(), chunks2)) by {
            assert forall|c: int| #[trigger] is_free(chunks2, c) implies after.memory.words()[c
                + 16] == chunks2[c].acme - c && after.memory.words()[chunks2[c].acme - 8]
                == chunks2[c].acme - c by {
                assert(is_free(chunks, c));
            }
        }
        assert(listed(chunks2, after.lists@)) by {
            let lists = after.lists@;
            assert forall|g: int, j: int| 0 <= g < 128 && 0 <= j < lists[g].len() implies is_free(
                chunks2,
                #[trigger] lists[g][j],
            ) && bucket_of(chunks2, lists[g][j]) == g by {
                assert(is_free(chunks, lists[g][j]));
            }
            assert forall|c: int| is_free(chunks2, c) implies #[trigger] is_listed(
                chunks2,
                lists,
                c,
            ) by {
                assert(is_free(chunks, c));
                assert(is_listed(chunks, lists, c));
            }
        }
    }

    /// The first word of a chunk is odd exactly if the chunk is reserved.
    pub(crate) proof fn lemma_first_word(&self, b: int)
        requires
            self.recorded(),
            self.chunks@.dom().contains(b),
            tag_ok(self.memory.words(), self.chunks@, b),
        ensures
            self.memory.words().dom().contains(b),
            self.memory.words()[b] % 2 == 1 <==> self.chunks@[b].used is Some,
    {
        reveal(Talloc::recorded);
        let m = self.memory.words();
        let chunks = self.chunks@;
        let lists = self.lists@;
        if chunks[b].used is Some {
            lemma_tag_word(m[b], chunks[b].acme, ends_free(chunks, b));
        } else {
            assert(is_free(chunks, b));
            let j: int = lemma_list_position(chunks, lists, b);
            let g: int = bucket_of(chunks, b);
            assert(node_ok(m, self.llists as int, lists, g, j));
            if j + 1 < lists[g].len() {
                assert(is_free(chunks, lists[g][j + 1]));
            }
        }
    }

    /// From an allocation's address its chunk and the chunk's tag can be found.
    pub(crate) proof fn lemma_find_chunk(&self, b: int)
        requires
            self.recorded(),
            self.chunks@.dom().contains(b),
            self.chunks@[b].used is Some,
            tag_ok(self.memory.words(), self.chunks@, b),
        ensures
            8 <= self.chunks@[b].used->0.ptr,
            self.memory.words().dom().contains(round_down(self.chunks@[b].used->0.ptr - 8, 8)),
            tag_ptr_of(self.memory.words(), self.chunks@[b].used->0.ptr) == b,
            self.memory.words().dom().contains(b),
            self.memory.words()[b] == tag_word(self.chunks@[b].acme, ends_free(self.chunks@, b)),
    {
        reveal(Talloc::recorded);
        let m = self.memory.words();
        lemma_tag_word(m[b], self.chunks@[b].acme, ends_free(self.chunks@, b));
    }
}

} // verus!
