use crate::bucket::bucket;
use crate::layout::Layout;
use crate::span::Span;
use crate::word::round_up;
use vstd::prelude::*;

verus! {

/// What a reserved chunk holds: the allocation at `ptr` for a request of `layout`.
pub struct Use {
    pub ptr: int,
    pub layout: Layout,
}

/// A chunk, which ends at `acme`. A chunk that nothing uses is free.
pub struct Chunk {
    pub acme: int,
    pub used: Option<Use>,
}

/// What an allocator holds.
pub struct Heap {
    /// The span that the allocator was given.
    pub arena: Span,
    /// Where the lowest chunk starts.
    pub base: int,
    /// Where the highest chunk ends.
    pub acme: int,
    /// The chunks, by the address they start at.
    pub chunks: Map<int, Chunk>,
    /// For each bucket, the free chunks in it, in the order in which they are tried.
    pub lists: Seq<Seq<int>>,
}

/// Whether a free chunk starts at `b`.
pub open spec fn is_free(chunks: Map<int, Chunk>, b: int) -> bool {
    chunks.dom().contains(b) && chunks[b].used is None
}

/// Whether a free chunk ends at `e`.
pub open spec fn ends_free(chunks: Map<int, Chunk>, e: int) -> bool {
    exists|b: int| #[trigger]
        chunks.dom().contains(b) && chunks[b].used is None && chunks[b].acme == e
}

/// Whether the address `a` lies in a free chunk.
pub open spec fn in_free(chunks: Map<int, Chunk>, a: int) -> bool {
    exists|b: int| #[trigger]
        chunks.dom().contains(b) && chunks[b].used is None && b <= a < chunks[b].acme
}

/// Whether the address `a` lies in what a reserved chunk holds for its user.
pub open spec fn in_payload(chunks: Map<int, Chunk>, a: int) -> bool {
    exists|b: int| #[trigger]
        chunks.dom().contains(b) && chunks[b].used is Some && chunks[b].used->0.ptr <= a
            < chunks[b].acme
}

/// Whether `a` is a multiple of `n`.
#[verifier::opaque]
pub open spec fn is_multiple(a: int, n: int) -> bool {
    a % n == 0
}

/// Whether the allocation stands right in a chunk from `b` to `acme`: above the
/// tag, aligned, and inside the chunk.
pub open spec fn use_fits(b: int, acme: int, u: Use) -> bool {
    &&& u.layout.valid()
    &&& u.layout.size() > 0
    &&& u.ptr % 8 == 0
    &&& is_multiple(u.ptr, u.layout.align() as int)
    &&& b + 8 <= u.ptr
    &&& u.ptr + u.layout.size() <= acme
}

/// Whether a chunk may start at `b` in a heap from `lo` to `hi`.
pub open spec fn chunk_fits(lo: int, hi: int, b: int, chunk: Chunk) -> bool {
    &&& 0 < lo <= b
    &&& b + 24 <= chunk.acme <= hi
    &&& b % 8 == 0
    &&& chunk.acme % 8 == 0
    &&& chunk.used matches Some(u) ==> use_fits(b, chunk.acme, u)
}

/// Every chunk stands right between `lo` and `hi`.
pub open spec fn placed(chunks: Map<int, Chunk>, lo: int, hi: int) -> bool {
    forall|b: int| #[trigger] chunks.dom().contains(b) ==> chunk_fits(lo, hi, b, chunks[b])
}

/// No two chunks overlap.
pub open spec fn apart(chunks: Map<int, Chunk>) -> bool {
    forall|b: int, c: int|
        #![trigger chunks.dom().contains(b), chunks.dom().contains(c)]
        chunks.dom().contains(b) && chunks.dom().contains(c) && b < c ==> chunks[b].acme <= c
}

/// The chunks follow one another without a gap from `lo` to `hi`.
pub open spec fn linked(chunks: Map<int, Chunk>, lo: int, hi: int) -> bool {
    &&& lo < hi ==> chunks.dom().contains(lo)
    &&& forall|b: int| chunks.dom().contains(b) ==> #[trigger] followed(chunks, hi, b)
}

/// The chunk at `b` ends where another one starts, or at `hi`.
pub open spec fn followed(chunks: Map<int, Chunk>, hi: int, b: int) -> bool {
    chunks[b].acme == hi || chunks.dom().contains(chunks[b].acme)
}

/// No free chunk borders on another.
pub open spec fn merged(chunks: Map<int, Chunk>) -> bool {
    forall|b: int| is_free(chunks, b) ==> #[trigger] lone(chunks, b)
}

/// No free chunk starts where the chunk at `b` ends.
pub open spec fn lone(chunks: Map<int, Chunk>, b: int) -> bool {
    !is_free(chunks, chunks[b].acme)
}

impl Heap {
    /// Whether the allocation at `ptr`, for a request of `layout`, is live.
    pub open spec fn allocated(self, ptr: int, layout: Layout) -> bool {
        exists|b: int| #[trigger]
            self.chunks.dom().contains(b) && self.chunks[b].used == Some(Use { ptr, layout })
    }

    /// Where the chunk of the allocation at `ptr` starts.
    pub open spec fn chunk_of(self, ptr: int) -> int {
        choose|b: int| #[trigger]
            self.chunks.dom().contains(b) && self.chunks[b].used is Some
                && self.chunks[b].used->0.ptr == ptr
    }

    /// Where the free chunk that ends at `e` starts.
    pub open spec fn free_below(self, e: int) -> int {
        choose|b: int| #[trigger]
            self.chunks.dom().contains(b) && self.chunks[b].used is None && self.chunks[b].acme == e
    }

    /// The heap with a free chunk from `b` to `acme`.
    pub open spec fn record(self, b: int, acme: int) -> Heap {
        Heap {
            chunks: self.chunks.insert(b, Chunk { acme, used: None }),
            lists: enlist(self.lists, b, acme),
            ..self
        }
    }

    /// The heap without the free chunk at `b`.
    pub open spec fn strike(self, b: int) -> Heap {
        Heap {
            chunks: self.chunks.remove(b),
            lists: unlist(self.lists, b, self.chunks[b].acme),
            ..self
        }
    }

    /// The heap with a reserved chunk from `b` to `acme`.
    pub open spec fn reserve(self, b: int, acme: int, u: Use) -> Heap {
        Heap { chunks: self.chunks.insert(b, Chunk { acme, used: Some(u) }), ..self }
    }

    /// Where the free space that starts at `e` ends: `e` itself if none does.
    pub open spec fn free_up_to(self, e: int) -> int {
        if is_free(self.chunks, e) {
            self.chunks[e].acme
        } else {
            e
        }
    }

    /// The heap without a free chunk at `e`.
    pub open spec fn without_free_at(self, e: int) -> Heap {
        if is_free(self.chunks, e) {
            self.strike(e)
        } else {
            self
        }
    }

    /// The heap after the allocation at `ptr` has been freed: its chunk, together
    /// with the free chunks that border on it, becomes one free chunk.
    pub open spec fn freed(self, ptr: int) -> Heap {
        let b: int = self.chunk_of(ptr);
        let e: int = self.chunks[b].acme;
        let above = self.without_free_at(e);
        let rest = Heap { chunks: above.chunks.remove(b), ..above };
        if ends_free(self.chunks, b) {
            rest.strike(self.free_below(b)).record(self.free_below(b), self.free_up_to(e))
        } else {
            rest.record(b, self.free_up_to(e))
        }
    }
}

/// The size of chunk that a request of `size` bytes needs at least.
pub open spec fn required(size: int) -> int {
    if size <= 16 {
        24
    } else {
        round_up(size + 8, 8)
    }
}

/// Where an allocation stands in a free chunk at `b`: at the lowest address above
/// the tag that is aligned as the request asks.
#[verifier::opaque]
pub open spec fn alloc_ptr(b: int, layout: Layout) -> int {
    round_up(b + 8, layout.align() as int)
}

/// Whether a free chunk from `b` to `acme` has room for a request.
pub open spec fn sufficient(b: int, acme: int, layout: Layout) -> bool {
    &&& acme - b >= required(layout.size() as int)
    &&& alloc_ptr(b, layout) + layout.size() <= acme
}

/// Where a reserved chunk starts that is made of a free chunk from `b` to `e` for an
/// allocation at `ptr`: where the tag is expected or, if that is too high for a
/// whole chunk, as high as it can be; but at `b` if what is left below would be
/// too small for a chunk.
pub open spec fn reserve_from(b: int, e: int, ptr: int) -> int {
    let t: int = if e - 24 < ptr - 8 {
        e - 24
    } else {
        ptr - 8
    };
    if t - b >= 24 {
        t
    } else {
        b
    }
}

/// The end of a chunk at `t` that holds `size` bytes at `ptr`, and no more.
pub open spec fn required_acme(t: int, ptr: int, size: int) -> int {
    let end: int = round_up(ptr + size, 8);
    if end < t + 24 {
        t + 24
    } else {
        end
    }
}

/// The end of a reserved chunk for which `req` is enough and `e` is there: `e` if
/// what is left above `req` would be too small for a chunk.
pub open spec fn reserve_to(req: int, e: int) -> int {
    if e - req >= 24 {
        req
    } else {
        e
    }
}

impl Heap {
    /// Whether position `j` of the list of bucket `g` holds the first chunk, in the
    /// order of buckets from the one for the required size on, that has room for
    /// the request.
    pub open spec fn is_first_fit(self, layout: Layout, g: int, j: int) -> bool {
        &&& bucket(required(layout.size() as int)) <= g < 128
        &&& 0 <= j < self.lists[g].len()
        &&& self.has_room(self.lists[g][j], layout)
        &&& forall|h: int, i: int|
            bucket(required(layout.size() as int)) <= h <= g && 0 <= i < self.lists[h].len() && (h
                < g || i < j) ==> !self.has_room(#[trigger] self.lists[h][i], layout)
    }

    /// Whether the chunk at `b` has room for the request.
    pub open spec fn has_room(self, b: int, layout: Layout) -> bool {
        sufficient(b, self.chunks[b].acme, layout)
    }

    /// The free chunk that the request gets.
    pub open spec fn fit(self, layout: Layout) -> Option<int> {
        if exists|g: int, j: int| self.is_first_fit(layout, g, j) {
            let (g, j) = choose|g: int, j: int| self.is_first_fit(layout, g, j);
            Some(self.lists[g][j])
        } else {
            None
        }
    }

    /// The heap after the free chunk at `b` has been used for a request. What is
    /// left of the chunk on either side becomes a free chunk.
    pub open spec fn allocate(self, b: int, layout: Layout) -> Heap {
        let e: int = self.chunks[b].acme;
        let ptr: int = alloc_ptr(b, layout);
        let t: int = reserve_from(b, e, ptr);
        let end: int = reserve_to(required_acme(t, ptr, layout.size() as int), e);
        let below = if t == b {
            self.strike(b)
        } else {
            self.strike(b).record(b, t)
        };
        let above = if end == e {
            below
        } else {
            below.record(end, e)
        };
        above.reserve(t, end, Use { ptr, layout })
    }
}

impl Heap {
    /// What the allocation at `ptr`, made for `layout`, is after its size has been
    /// changed.
    pub open spec fn resized(ptr: int, layout: Layout, new_size: u64) -> Use {
        Use { ptr, layout: Layout::of(new_size, layout.align()) }
    }

    /// Where the chunk of the allocation at `ptr` would have to end at least for the
    /// allocation to have `new_size` bytes.
    pub open spec fn needed_acme(self, ptr: int, new_size: int) -> int {
        required_acme(self.chunk_of(ptr), ptr, new_size)
    }

    /// Whether the chunk of the allocation at `ptr` is large enough for `new_size`
    /// bytes.
    pub open spec fn is_roomy(self, ptr: int, new_size: int) -> bool {
        self.needed_acme(ptr, new_size) <= self.chunks[self.chunk_of(ptr)].acme
    }

    /// Whether the chunk of the allocation at `ptr` can be made large enough for
    /// `new_size` bytes by taking space from a free chunk above it.
    pub open spec fn is_extensible(self, ptr: int, new_size: int) -> bool {
        let e: int = self.chunks[self.chunk_of(ptr)].acme;
        is_free(self.chunks, e) && self.needed_acme(ptr, new_size) <= self.chunks[e].acme
    }

    /// The heap after the allocation at `ptr`, made for `layout`, has been given
    /// `new_size` bytes within its chunk.
    pub open spec fn relaid(self, ptr: int, layout: Layout, new_size: u64) -> Heap {
        let b: int = self.chunk_of(ptr);
        self.reserve(b, self.chunks[b].acme, Heap::resized(ptr, layout, new_size))
    }

    /// The heap after the allocation at `ptr`, made for `layout`, has been given
    /// `new_size` bytes by taking space from the free chunk above. What is left of
    /// that chunk stays free.
    pub open spec fn extended(self, ptr: int, layout: Layout, new_size: u64) -> Heap {
        let b: int = self.chunk_of(ptr);
        let e: int = self.chunks[b].acme;
        let top: int = self.chunks[e].acme;
        let end: int = reserve_to(self.needed_acme(ptr, new_size as int), top);
        let rest = if end == top {
            self.strike(e)
        } else {
            self.strike(e).record(end, top)
        };
        rest.reserve(b, end, Heap::resized(ptr, layout, new_size))
    }

    /// The heap after the allocation at `ptr`, made for `layout`, has been cut to
    /// `new_size` bytes: what the chunk has too much, if it is enough for a chunk,
    /// becomes free, together with a free chunk above.
    pub open spec fn shrunk(self, ptr: int, layout: Layout, new_size: u64) -> Heap {
        let b: int = self.chunk_of(ptr);
        let e: int = self.chunks[b].acme;
        let req: int = self.needed_acme(ptr, new_size as int);
        if e - req >= 24 {
            self.without_free_at(e).record(req, self.free_up_to(e)).reserve(
                b,
                req,
                Heap::resized(ptr, layout, new_size),
            )
        } else {
            self.relaid(ptr, layout, new_size)
        }
    }
}

/// There is at most one first fit.
pub proof fn lemma_first_fit(heap: Heap, layout: Layout, g: int, j: int)
    requires
        heap.is_first_fit(layout, g, j),
    ensures
        heap.fit(layout) == Some(heap.lists[g][j]),
{
    let (h, i) = choose|h: int, i: int| heap.is_first_fit(layout, h, i);
    assert(heap.is_first_fit(layout, h, i));
    if h < g || h == g && i < j {
        assert(!heap.has_room(heap.lists[h][i], layout));
    } else if g < h || j < i {
        assert(!heap.has_room(heap.lists[g][j], layout));
    }
}

/// An allocation's address tells its chunk.
pub proof fn lemma_chunk_of(heap: Heap, b: int)
    requires
        placed(heap.chunks, heap.base, heap.acme),
        apart(heap.chunks),
        heap.chunks.dom().contains(b),
        heap.chunks[b].used is Some,
    ensures
        heap.chunk_of(heap.chunks[b].used->0.ptr) == b,
{
    let c = heap.chunk_of(heap.chunks[b].used->0.ptr);
    assert(heap.chunks.dom().contains(c) && heap.chunks[c].used is Some
        && heap.chunks[c].used->0.ptr == heap.chunks[b].used->0.ptr);
    assert(chunk_fits(heap.base, heap.acme, b, heap.chunks[b]));
    assert(chunk_fits(heap.base, heap.acme, c, heap.chunks[c]));
}

/// The two maps hold the same chunks but for those that start between `x` and `y`.
pub open spec fn same_outside(
    chunks: Map<int, Chunk>,
    chunks2: Map<int, Chunk>,
    x: int,
    y: int,
) -> bool {
    forall|b: int|
        #![trigger chunks.dom().contains(b)]
        #![trigger chunks2.dom().contains(b)]
        !(x <= b < y) ==> (chunks.dom().contains(b) <==> chunks2.dom().contains(b)) && (
        chunks.dom().contains(b) ==> chunks2[b] == chunks[b])
}

/// Replacing the chunks between `x` and `y` by others that fill the place, or that
/// leave it at an end of the heap.
#[verifier::rlimit(30)]
pub proof fn lemma_splice(
    chunks: Map<int, Chunk>,
    lo: int,
    hi: int,
    chunks2: Map<int, Chunk>,
    lo2: int,
    hi2: int,
    x: int,
    y: int,
)
    requires
        placed(chunks, lo, hi),
        linked(chunks, lo, hi),
        merged(chunks),
        placed(chunks2, lo2, hi2),
        same_outside(chunks, chunks2, x, y),
        x <= y,
        x <= hi,
        forall|b: int| #[trigger]
            chunks.dom().contains(b) ==> (b < x ==> chunks[b].acme <= x) && (b < y
                ==> chunks[b].acme <= y),
        forall|b: int| #[trigger]
            chunks2.dom().contains(b) && x <= b < y ==> chunks2[b].acme <= y && followed(
                chunks2,
                hi2,
                b,
            ),
        chunks2.dom().contains(x) || x == hi2 || forall|b: int| #[trigger]
            chunks.dom().contains(b) ==> x <= b,
        lo2 < hi2 ==> chunks2.dom().contains(lo2),
        hi2 == hi || forall|b: int| #[trigger] chunks.dom().contains(b) ==> b < y,
        is_free(chunks2, x) ==> !ends_free(chunks, x),
        forall|b: int| #[trigger]
            is_free(chunks2, b) && x <= b < y ==> lone(chunks2, b),
    ensures
        linked(chunks2, lo2, hi2),
        merged(chunks2),
        forall|e: int| e <= x || y < e ==> #[trigger] ends_free(chunks2, e) == ends_free(chunks, e),
{
    assert forall|b: int| chunks2.dom().contains(b) implies #[trigger] followed(chunks2, hi2, b) by {
        if b < x {
            assert(chunks.dom().contains(b));
            assert(followed(chunks, hi, b));
            if chunks[b].acme < x {
                assert(chunks.dom().contains(chunks[b].acme));
            }
        } else if b >= y {
            assert(chunks.dom().contains(b));
            assert(followed(chunks, hi, b));
            if chunks[b].acme != hi {
                assert(chunks.dom().contains(chunks[b].acme));
            }
        }
    }
    assert forall|b: int| is_free(chunks2, b) implies #[trigger] lone(chunks2, b) by {
        if b < x {
            assert(chunks.dom().contains(b));
            assert(is_free(chunks, b));
            if chunks[b].acme == x {
                assert(ends_free(chunks, x));
            } else {
                assert(lone(chunks, b));
                assert(chunks2.dom().contains(chunks[b].acme) ==> chunks.dom().contains(
                    chunks[b].acme,
                ));
            }
        } else if b >= y {
            assert(chunks.dom().contains(b));
            assert(is_free(chunks, b));
            assert(lone(chunks, b));
            assert(chunks2.dom().contains(chunks[b].acme) ==> chunks.dom().contains(
                chunks[b].acme,
            ));
        }
    }
    assert forall|e: int| e <= x || y < e implies #[trigger] ends_free(chunks2, e) == ends_free(
        chunks,
        e,
    ) by {
        if ends_free(chunks, e) {
            let b: int = choose|b: int| #[trigger]
                chunks.dom().contains(b) && chunks[b].used is None && chunks[b].acme == e;
            assert(chunks2.dom().contains(b));
        }
        if ends_free(chunks2, e) {
            let b: int = choose|b: int| #[trigger]
                chunks2.dom().contains(b) && chunks2[b].used is None && chunks2[b].acme == e;
            assert(chunks.dom().contains(b));
        }
    }
}

/// The bucket of the chunk at `b`.
pub open spec fn bucket_of(chunks: Map<int, Chunk>, b: int) -> int {
    bucket(chunks[b].acme - b)
}

/// The list of its bucket holds the chunk at `b`.
pub open spec fn is_listed(chunks: Map<int, Chunk>, lists: Seq<Seq<int>>, b: int) -> bool {
    0 <= bucket_of(chunks, b) < 128 && lists[bucket_of(chunks, b)].contains(b)
}

/// The lists hold the free chunks, each once and in its bucket, and nothing else.
pub open spec fn listed(chunks: Map<int, Chunk>, lists: Seq<Seq<int>>) -> bool {
    &&& lists.len() == 128
    &&& forall|g: int, j: int|
        0 <= g < 128 && 0 <= j < lists[g].len() ==> is_free(chunks, #[trigger] lists[g][j])
            && bucket_of(chunks, lists[g][j]) == g
    &&& forall|b: int| is_free(chunks, b) ==> #[trigger] is_listed(chunks, lists, b)
    &&& forall|g: int| 0 <= g < 128 ==> (#[trigger] lists[g]).no_duplicates()
}

/// The lists with the free chunk from `b` to `acme` put first in its bucket.
pub open spec fn enlist(lists: Seq<Seq<int>>, b: int, acme: int) -> Seq<Seq<int>> {
    lists.update(bucket(acme - b), seq![b] + lists[bucket(acme - b)])
}

/// The lists without the free chunk from `b` to `acme`.
pub open spec fn unlist(lists: Seq<Seq<int>>, b: int, acme: int) -> Seq<Seq<int>> {
    lists.update(
        bucket(acme - b),
        lists[bucket(acme - b)].remove(lists[bucket(acme - b)].index_of(b)),
    )
}

/// A free chunk from `b` to `acme` joins the lists.
pub proof fn lemma_enlist(chunks: Map<int, Chunk>, lists: Seq<Seq<int>>, b: int, acme: int)
    requires
        listed(chunks, lists),
        !chunks.dom().contains(b),
        acme - b >= 24,
    ensures
        listed(chunks.insert(b, Chunk { acme, used: None }), enlist(lists, b, acme)),
{
    crate::bucket::lemma_bucket_range(acme - b);
    let g0: int = bucket(acme - b);
    let chunks2 = chunks.insert(b, Chunk { acme, used: None });
    let lists2 = enlist(lists, b, acme);
    assert forall|g: int, j: int| 0 <= g < 128 && 0 <= j < lists2[g].len() implies is_free(
        chunks2,
        #[trigger] lists2[g][j],
    ) && bucket_of(chunks2, lists2[g][j]) == g by {
        if g == g0 && j > 0 {
            assert(lists2[g][j] == lists[g][j - 1]);
            assert(is_free(chunks, lists[g][j - 1]));
        } else if g != g0 {
            assert(lists2[g][j] == lists[g][j]);
            assert(is_free(chunks, lists[g][j]));
        }
    }
    assert forall|x: int| is_free(chunks2, x) implies #[trigger] is_listed(chunks2, lists2, x) by {
        if x == b {
            assert(lists2[g0][0] == b);
        } else {
            assert(is_free(chunks, x));
            assert(is_listed(chunks, lists, x));
            let g: int = bucket_of(chunks, x);
            let j: int = choose|j: int| 0 <= j < lists[g].len() && lists[g][j] == x;
            if g == g0 {
                assert(lists2[g][j + 1] == x);
            } else {
                assert(lists2[g][j] == x);
            }
        }
    }
    assert forall|g: int| 0 <= g < 128 implies (#[trigger] lists2[g]).no_duplicates() by {
        assert(lists[g].no_duplicates());
        if g == g0 {
            assert forall|i: int, j: int|
                0 <= i < lists2[g].len() && 0 <= j < lists2[g].len() && i
                    != j implies lists2[g][i] != lists2[g][j] by {
                if i > 0 {
                    assert(is_free(chunks, lists[g][i - 1]));
                }
                if j > 0 {
                    assert(is_free(chunks, lists[g][j - 1]));
                }
            }
        }
    }
}

/// Where a free chunk stands in the lists.
pub proof fn lemma_list_position(chunks: Map<int, Chunk>, lists: Seq<Seq<int>>, b: int) -> (j: int)
    requires
        listed(chunks, lists),
        is_free(chunks, b),
    ensures
        0 <= bucket_of(chunks, b) < 128,
        0 <= j < lists[bucket_of(chunks, b)].len(),
        lists[bucket_of(chunks, b)][j] == b,
        j == lists[bucket_of(chunks, b)].index_of(b),
{
    let list = lists[bucket_of(chunks, b)];
    assert(is_listed(chunks, lists, b));
    assert(list.contains(b));
    list.index_of(b)
}

/// No chunk stands in two places.
pub proof fn lemma_list_unique(
    chunks: Map<int, Chunk>,
    lists: Seq<Seq<int>>,
    g: int,
    i: int,
    h: int,
    j: int,
)
    requires
        listed(chunks, lists),
        0 <= g < 128,
        0 <= h < 128,
        0 <= i < lists[g].len(),
        0 <= j < lists[h].len(),
        lists[g][i] == lists[h][j],
    ensures
        g == h,
        i == j,
{
    assert(is_free(chunks, lists[g][i]));
    assert(is_free(chunks, lists[h][j]));
    assert(lists[g].no_duplicates());
}

/// A free chunk leaves the lists.
pub proof fn lemma_unlist(chunks: Map<int, Chunk>, lists: Seq<Seq<int>>, b: int)
    requires
        listed(chunks, lists),
        is_free(chunks, b),
    ensures
        listed(chunks.remove(b), unlist(lists, b, chunks[b].acme)),
{
    let g0: int = bucket_of(chunks, b);
    let j0: int = lemma_list_position(chunks, lists, b);
    let chunks2 = chunks.remove(b);
    let lists2 = unlist(lists, b, chunks[b].acme);
    assert(lists2[g0] == lists[g0].remove(j0));
    assert forall|g: int, j: int| 0 <= g < 128 && 0 <= j < lists2[g].len() implies is_free(
        chunks2,
        #[trigger] lists2[g][j],
    ) && bucket_of(chunks2, lists2[g][j]) == g by {
        let i: int = if g == g0 && j >= j0 {
            j + 1
        } else {
            j
        };
        assert(lists2[g][j] == lists[g][i]);
        assert(is_free(chunks, lists[g][i]));
        if lists[g][i] == b {
            lemma_list_unique(chunks, lists, g, i, g0, j0);
        }
    }
    assert forall|x: int| is_free(chunks2, x) implies #[trigger] is_listed(chunks2, lists2, x) by {
        assert(is_free(chunks, x));
        let g: int = bucket_of(chunks, x);
        let j: int = lemma_list_position(chunks, lists, x);
        let i: int = if g == g0 && j >= j0 {
            j - 1
        } else {
            j
        };
        assert(lists2[g][i] == x);
    }
    assert forall|g: int| 0 <= g < 128 implies (#[trigger] lists2[g]).no_duplicates() by {
        assert(lists[g].no_duplicates());
    }
}

} // verus!
