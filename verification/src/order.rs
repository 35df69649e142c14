//! The order in which free chunks are tried.

use crate::bucket::{bucket, lemma_bucket_range};
use crate::layout::Layout;
use crate::malloc::lemma_room;
use crate::memory::Memory;
use crate::model::{
    alloc_ptr, bucket_of, chunk_fits, ends_free, is_free, required_acme, reserve_from, reserve_to,
    Heap,
};
use crate::talloc::Talloc;
use vstd::prelude::*;

verus! {

/// Whether the free chunk at `b` is in both heaps the same.
pub open spec fn stays(before: Heap, after: Heap, b: int) -> bool {
    before.chunks.dom().contains(b) && after.chunks.dom().contains(b) && before.chunks[b]
        == after.chunks[b]
}

/// In every bucket, the chunks that are new come first, and those that stay are in the
/// order in which they were.
pub open spec fn order_kept(before: Heap, after: Heap) -> bool {
    forall|g: int, i: int, j: int|
        #![trigger after.lists[g][i], after.lists[g][j]]
        0 <= g < 128 && 0 <= i < j < after.lists[g].len() && stays(before, after, after.lists[g][i])
            ==> stays(before, after, after.lists[g][j]) && before.lists[g].index_of(
            after.lists[g][i],
        ) < before.lists[g].index_of(after.lists[g][j])
}

/// In every list, what is in `fresh` comes first, and the rest is in the order of `old`.
spec fn ordered(old: Seq<Seq<int>>, lists: Seq<Seq<int>>, fresh: Set<int>) -> bool {
    &&& lists.len() == 128
    &&& forall|g: int, i: int, j: int|
        #![trigger lists[g][i], lists[g][j]]
        0 <= g < 128 && 0 <= i < j < lists[g].len() && !fresh.contains(lists[g][i])
            ==> !fresh.contains(lists[g][j]) && old[g].index_of(lists[g][i]) < old[g].index_of(
            lists[g][j],
        )
}

proof fn lemma_ordered(lists: Seq<Seq<int>>)
    requires
        lists.len() == 128,
        forall|g: int| 0 <= g < 128 ==> (#[trigger] lists[g]).no_duplicates(),
    ensures
        ordered(lists, lists, Set::empty()),
{
    assert forall|g: int, i: int, j: int|
        #![trigger lists[g][i], lists[g][j]]
        0 <= g < 128 && 0 <= i < j < lists[g].len() implies lists[g].index_of(lists[g][i])
        < lists[g].index_of(lists[g][j]) by {
        assert(lists[g].no_duplicates());
        assert(lists[g].contains(lists[g][i]) && lists[g].contains(lists[g][j]));
    }
}

/// Taking a chunk out of its list.
proof fn lemma_ordered_strike(old: Seq<Seq<int>>, heap: Heap, fresh: Set<int>, b: int)
    requires
        ordered(old, heap.lists, fresh),
        0 <= bucket(heap.chunks[b].acme - b) < 128,
        heap.lists[bucket(heap.chunks[b].acme - b)].contains(b),
    ensures
        ordered(old, heap.strike(b).lists, fresh),
{
    let g0 = bucket(heap.chunks[b].acme - b);
    let k = heap.lists[g0].index_of(b);
    let lists = heap.strike(b).lists;
    assert(lists[g0] == heap.lists[g0].remove(k));
    assert forall|g: int, i: int, j: int|
        #![trigger lists[g][i], lists[g][j]]
        0 <= g < 128 && 0 <= i < j < lists[g].len() && !fresh.contains(
            lists[g][i],
        ) implies !fresh.contains(lists[g][j]) && old[g].index_of(lists[g][i]) < old[g].index_of(lists[g][j]) by {
        if g == g0 {
            let i2 = if i < k {
                i
            } else {
                i + 1
            };
            let j2 = if j < k {
                j
            } else {
                j + 1
            };
            assert(lists[g][i] == heap.lists[g][i2] && lists[g][j] == heap.lists[g][j2]);
        } else {
            assert(lists[g] == heap.lists[g]);
        }
    }
}

/// Putting a chunk first in its list.
proof fn lemma_ordered_record(old: Seq<Seq<int>>, heap: Heap, fresh: Set<int>, b: int, acme: int)
    requires
        ordered(old, heap.lists, fresh),
        0 <= bucket(acme - b) < 128,
        forall|g: int| 0 <= g < 128 ==> !(#[trigger] heap.lists[g]).contains(b),
    ensures
        ordered(old, heap.record(b, acme).lists, fresh.insert(b)),
{
    let g0 = bucket(acme - b);
    let lists = heap.record(b, acme).lists;
    let fresh2 = fresh.insert(b);
    assert(lists[g0] == seq![b] + heap.lists[g0]);
    assert forall|g: int, i: int, j: int|
        #![trigger lists[g][i], lists[g][j]]
        0 <= g < 128 && 0 <= i < j < lists[g].len() && !fresh2.contains(
            lists[g][i],
        ) implies !fresh2.contains(lists[g][j]) && old[g].index_of(lists[g][i]) < old[g].index_of(
        lists[g][j],
    ) by {
        assert(!heap.lists[g].contains(b));
        if g == g0 {
            assert(lists[g][i] == heap.lists[g][i - 1] && lists[g][j] == heap.lists[g][j - 1]);
        } else {
            assert(lists[g] == heap.lists[g]);
        }
    }
}

/// What is not in the lists with a chunk put first is not in those without.
proof fn lemma_not_yet(heap: Heap, b: int, acme: int)
    requires
        heap.lists.len() == 128,
        0 <= bucket(acme - b) < 128,
        heap.record(b, acme).lists[bucket(acme - b)].no_duplicates(),
        forall|g: int, j: int|
            0 <= g < 128 && g != bucket(acme - b) && 0 <= j < heap.record(b, acme).lists[g].len()
                ==> #[trigger] heap.record(b, acme).lists[g][j] != b,
    ensures
        forall|g: int| 0 <= g < 128 ==> !(#[trigger] heap.lists[g]).contains(b),
{
    let g0 = bucket(acme - b);
    let lists = heap.record(b, acme).lists;
    assert(lists[g0] == seq![b] + heap.lists[g0]);
    assert forall|g: int| 0 <= g < 128 implies !(#[trigger] heap.lists[g]).contains(b) by {
        if heap.lists[g].contains(b) {
            let j = heap.lists[g].index_of(b);
            if g == g0 {
                assert(lists[g][j + 1] == b && lists[g][0] == b);
            } else {
                assert(lists[g][j] == b);
            }
        }
    }
}

/// From what is fresh to what stays.
proof fn lemma_order_kept(before: Heap, after: Heap, fresh: Set<int>)
    requires
        ordered(before.lists, after.lists, fresh),
        forall|g: int, j: int|
            0 <= g < 128 && 0 <= j < after.lists[g].len() ==> (fresh.contains(
                #[trigger] after.lists[g][j],
            ) <==> !stays(before, after, after.lists[g][j])),
    ensures
        order_kept(before, after),
{
}

impl<M: Memory, H> Talloc<M, H> {
    /// Freeing puts the chunk first in its bucket, and leaves the others in their order.
    pub proof fn law_free_order(before: Self, after: Self, ptr: int, layout: Layout)
        requires
            before.wf(),
            after.wf(),
            before.heap().allocated(ptr, layout),
            after.heap() == before.heap().freed(ptr),
        ensures
            order_kept(before.heap(), after.heap()),
    {
        let h = before.heap();
        let c0 = h.chunks;
        let lo = before.alloc_base as int;
        let hi = before.alloc_acme as int;
        before.lemma_laid_out();
        before.law_listed();
        after.law_listed();
        before.lemma_locate(ptr, layout);
        let b = h.chunk_of(ptr);
        let e = c0[b].acme;
        let (x, y) = Self::law_free_joins(before, after, ptr, layout);
        lemma_bucket_range(y - x);
        lemma_ordered(h.lists);
        let none = Set::<int>::empty();
        let above = h.without_free_at(e);
        if is_free(c0, e) {
            assert(chunk_fits(lo, hi, e, c0[e]));
            lemma_bucket_range(c0[e].acme - e);
            assert(h.lists[bucket_of(c0, e)].contains(e));
            lemma_ordered_strike(h.lists, h, none, e);
        }
        let rest = Heap { chunks: above.chunks.remove(b), ..above };
        let last = if ends_free(c0, b) {
            rest.strike(h.free_below(b))
        } else {
            rest
        };
        if ends_free(c0, b) {
            let p = h.free_below(b);
            assert(c0.dom().contains(p) && c0[p].used is None && c0[p].acme == b);
            assert(chunk_fits(lo, hi, p, c0[p]));
            lemma_bucket_range(b - p);
            assert(is_free(c0, p));
            assert(h.lists[bucket_of(c0, p)].contains(p));
            assert(rest.chunks[p] == c0[p]);
            if is_free(c0, e) {
                lemma_still_listed(h, e, p);
            }
            lemma_ordered_strike(h.lists, rest, none, p);
        }
        let z = if ends_free(c0, b) {
            h.free_below(b)
        } else {
            b
        };
        assert(after.heap() == last.record(z, h.free_up_to(e)));
        assert(after.heap().chunks.dom().contains(z) && after.heap().chunks[z].used is None);
        assert(z == x && h.free_up_to(e) == y);
        lemma_not_yet_of(after, last, x, y);
        lemma_ordered_record(h.lists, last, none, x, y);
        let fresh = none.insert(x);
        assert forall|g: int, j: int|
            0 <= g < 128 && 0 <= j < after.heap().lists[g].len() implies (fresh.contains(
            #[trigger] after.heap().lists[g][j],
        ) <==> !stays(h, after.heap(), after.heap().lists[g][j])) by {
            let w = after.heap().lists[g][j];
            assert(is_free(after.heap().chunks, w));
        }
        lemma_order_kept(h, after.heap(), fresh);
    }
}

/// Taking one chunk out of its list leaves another one in its own.
proof fn lemma_still_listed(heap: Heap, e: int, p: int)
    requires
        heap.lists.len() == 128,
        e != p,
        0 <= bucket(heap.chunks[e].acme - e) < 128,
        0 <= bucket(heap.chunks[p].acme - p) < 128,
        heap.lists[bucket(heap.chunks[e].acme - e)].contains(e),
        heap.lists[bucket(heap.chunks[p].acme - p)].contains(p),
    ensures
        heap.strike(e).lists[bucket(heap.chunks[p].acme - p)].contains(p),
{
    let ge = bucket(heap.chunks[e].acme - e);
    let gp = bucket(heap.chunks[p].acme - p);
    let k = heap.lists[ge].index_of(e);
    let lists = heap.strike(e).lists;
    if ge == gp {
        let i = heap.lists[gp].index_of(p);
        assert(heap.lists[gp][i] == p && heap.lists[ge][k] == e);
        let i2 = if i < k {
            i
        } else {
            i - 1
        };
        assert(lists[gp][i2] == p);
    }
}

/// In an allocator that is well formed, a chunk that was put first in its list was in
/// none.
proof fn lemma_not_yet_of<M: Memory, H>(after: Talloc<M, H>, heap: Heap, b: int, acme: int)
    requires
        after.wf(),
        after.heap().lists == heap.record(b, acme).lists,
        heap.lists.len() == 128,
        0 <= bucket(acme - b) < 128,
        after.heap().chunks.dom().contains(b),
        after.heap().chunks[b].acme == acme,
    ensures
        forall|g: int| 0 <= g < 128 ==> !(#[trigger] heap.lists[g]).contains(b),
{
    after.law_listed();
    let lists = after.heap().lists;
    assert(lists[bucket(acme - b)].no_duplicates());
    assert forall|g: int, j: int|
        0 <= g < 128 && g != bucket(acme - b) && 0 <= j < lists[g].len() implies #[trigger] lists[g][j]
        != b by {
        assert(bucket_of(after.heap().chunks, lists[g][j]) == g);
    }
    lemma_not_yet(heap, b, acme);
}

/// A free chunk that is taken out of its list is in none.
proof fn lemma_struck<M: Memory, H>(talloc: Talloc<M, H>, c: int)
    requires
        talloc.wf(),
        is_free(talloc.heap().chunks, c),
    ensures
        0 <= bucket_of(talloc.heap().chunks, c) < 128,
        talloc.heap().lists[bucket_of(talloc.heap().chunks, c)].contains(c),
        ordered(talloc.heap().lists, talloc.heap().strike(c).lists, Set::empty()),
        forall|g: int|
            0 <= g < 128 ==> !(#[trigger] talloc.heap().strike(c).lists[g]).contains(c),
{
    let h = talloc.heap();
    talloc.lemma_laid_out();
    talloc.law_listed();
    assert(chunk_fits(talloc.alloc_base as int, talloc.alloc_acme as int, c, h.chunks[c]));
    lemma_bucket_range(h.chunks[c].acme - c);
    lemma_ordered(h.lists);
    let g0 = bucket_of(h.chunks, c);
    assert(h.lists[g0].contains(c));
    lemma_ordered_strike(h.lists, h, Set::empty(), c);
    let k = h.lists[g0].index_of(c);
    let lists = h.strike(c).lists;
    assert forall|g: int| 0 <= g < 128 implies !(#[trigger] lists[g]).contains(c) by {
        if lists[g].contains(c) {
            let i = lists[g].index_of(c);
            if g == g0 {
                assert(h.lists[g0].no_duplicates());
                let i2 = if i < k {
                    i
                } else {
                    i + 1
                };
                assert(h.lists[g0][i2] == c && h.lists[g0][k] == c);
            } else {
                assert(h.lists[g][i] == c);
                assert(bucket_of(h.chunks, h.lists[g][i]) == g);
            }
        }
    }
}

impl<M: Memory, H> Talloc<M, H> {
    /// Meeting a request leaves the free chunks that stay in their order, behind what is
    /// left of the one that was used.
    pub proof fn law_malloc_order(before: Self, after: Self, layout: Layout)
        requires
            before.wf(),
            after.wf(),
            layout.valid(),
            layout.size() > 0,
            before.heap().fit(layout) matches Some(b) && after.heap() == before.heap().allocate(
                b,
                layout,
            ),
        ensures
            order_kept(before.heap(), after.heap()),
    {
        before.law_fit(layout);
        before.lemma_laid_out();
        before.law_listed();
        after.law_listed();
        let h = before.heap();
        let c0 = h.chunks;
        let c = h.fit(layout)->0;
        let e = c0[c].acme;
        let ptr = alloc_ptr(c, layout);
        let t = reserve_from(c, e, ptr);
        let end = reserve_to(required_acme(t, ptr, layout.size() as int), e);
        assert(chunk_fits(before.alloc_base as int, before.alloc_acme as int, c, c0[c]));
        lemma_room(c, e, layout);
        lemma_struck(before, c);
        let none = Set::<int>::empty();
        let struck = h.strike(c);
        let below = if t == c {
            struck
        } else {
            struck.record(c, t)
        };
        let fresh1 = if t == c {
            none
        } else {
            none.insert(c)
        };
        if t != c {
            lemma_bucket_range(t - c);
            lemma_ordered_record(h.lists, struck, none, c, t);
        }
        let above = if end == e {
            below
        } else {
            below.record(end, e)
        };
        let fresh = if end == e {
            fresh1
        } else {
            fresh1.insert(end)
        };
        let chunks = after.heap().chunks;
        assert(after.heap().lists == above.lists);
        if end != e {
            lemma_bucket_range(e - end);
            assert(chunks.dom().contains(end) && chunks[end].acme == e);
            lemma_not_yet_of(after, below, end, e);
            lemma_ordered_record(h.lists, below, fresh1, end, e);
        }
        assert forall|g: int, j: int|
            0 <= g < 128 && 0 <= j < after.heap().lists[g].len() implies (fresh.contains(
            #[trigger] after.heap().lists[g][j],
        ) <==> !stays(h, after.heap(), after.heap().lists[g][j])) by {
            let w = after.heap().lists[g][j];
            assert(is_free(chunks, w));
        }
        lemma_order_kept(h, after.heap(), fresh);
    }

    /// Growing in place leaves the free chunks that stay in their order, behind what is
    /// left of the one above.
    pub proof fn law_grow_order(
        before: Self,
        after: Self,
        ptr: int,
        layout: Layout,
        new_size: u64,
    )
        requires
            before.wf(),
            after.wf(),
            before.heap().allocated(ptr, layout),
            0 < new_size,
            if before.heap().is_roomy(ptr, new_size as int) {
                after.heap() == before.heap().relaid(ptr, layout, new_size)
            } else {
                before.heap().is_extensible(ptr, new_size as int) && after.heap()
                    == before.heap().extended(ptr, layout, new_size)
            },
        ensures
            order_kept(before.heap(), after.heap()),
    {
        before.lemma_laid_out();
        before.law_listed();
        after.law_listed();
        before.lemma_locate(ptr, layout);
        Self::law_grow_in_place(before, after, ptr, layout, new_size);
        let h = before.heap();
        let c0 = h.chunks;
        let chunks = after.heap().chunks;
        let b = h.chunk_of(ptr);
        let e = c0[b].acme;
        let end = chunks[b].acme;
        let none = Set::<int>::empty();
        let mut fresh = none;
        lemma_ordered(h.lists);
        if !h.is_roomy(ptr, new_size as int) {
            let top = c0[e].acme;
            assert(chunk_fits(before.alloc_base as int, before.alloc_acme as int, e, c0[e]));
            lemma_struck(before, e);
            let struck = h.strike(e);
            if end != top {
                lemma_bucket_range(top - end);
                assert(after.heap().lists == struck.record(end, top).lists);
                lemma_not_yet_of(after, struck, end, top);
                lemma_ordered_record(h.lists, struck, none, end, top);
                fresh = none.insert(end);
            } else {
                assert(after.heap().lists == struck.lists);
            }
        } else {
            assert(after.heap().lists == h.lists);
        }
        assert forall|g: int, j: int|
            0 <= g < 128 && 0 <= j < after.heap().lists[g].len() implies (fresh.contains(
            #[trigger] after.heap().lists[g][j],
        ) <==> !stays(h, after.heap(), after.heap().lists[g][j])) by {
            let w = after.heap().lists[g][j];
            assert(is_free(chunks, w));
        }
        lemma_order_kept(h, after.heap(), fresh);
    }

    /// Cutting an allocation leaves the free chunks that stay in their order, behind what
    /// becomes free.
    pub proof fn law_shrink_order(before: Self, after: Self, ptr: int, layout: Layout, new_size: u64)
        requires
            before.wf(),
            after.wf(),
            before.heap().allocated(ptr, layout),
            0 < new_size <= layout.size(),
            after.heap() == before.heap().shrunk(ptr, layout, new_size),
        ensures
            order_kept(before.heap(), after.heap()),
    {
        before.lemma_laid_out();
        before.law_listed();
        after.law_listed();
        before.lemma_locate(ptr, layout);
        Self::law_shrink(before, after, ptr, layout, new_size);
        let h = before.heap();
        let c0 = h.chunks;
        let chunks = after.heap().chunks;
        let b = h.chunk_of(ptr);
        let e = c0[b].acme;
        let end = chunks[b].acme;
        let top = h.free_up_to(e);
        let none = Set::<int>::empty();
        let mut fresh = none;
        lemma_ordered(h.lists);
        if end < e {
            let rest = h.without_free_at(e);
            if is_free(c0, e) {
                assert(chunk_fits(before.alloc_base as int, before.alloc_acme as int, e, c0[e]));
                lemma_struck(before, e);
            }
            lemma_bucket_range(top - end);
            assert(after.heap().lists == rest.record(end, top).lists);
            lemma_not_yet_of(after, rest, end, top);
            lemma_ordered_record(h.lists, rest, none, end, top);
            fresh = none.insert(end);
        } else {
            assert(after.heap().lists == h.lists);
        }
        assert forall|g: int, j: int|
            0 <= g < 128 && 0 <= j < after.heap().lists[g].len() implies (fresh.contains(
            #[trigger] after.heap().lists[g][j],
        ) <==> !stays(h, after.heap(), after.heap().lists[g][j])) by {
            let w = after.heap().lists[g][j];
            assert(is_free(chunks, w));
        }
        lemma_order_kept(h, after.heap(), fresh);
    }
}

} // verus!
