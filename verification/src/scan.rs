use crate::chunk::FreeChunk;
use crate::llist::{entry, node_ok};
use crate::memory::Memory;
use crate::model::{bucket_of, ends_free, followed, is_free, lemma_list_position, lone, Chunk};
use crate::span::{lemma_part, signed, to_signed, Span};
use crate::tag::{lemma_tag_word, Tag};
use crate::talloc::{available, has_bins, lemma_in_arena, tag_ok, Talloc};
use crate::word::{BIN_COUNT, NODE_SIZE, TAG_SIZE};
use vstd::prelude::*;
use vstd::set_lib::{lemma_int_range, lemma_len_subset, set_int_range};

verus! {

/// Where the free chunks of a list start and end, as their sizes in memory say.
pub open spec fn spans_of(m: Map<int, u64>, list: Seq<int>) -> Seq<(u64, u64)> {
    Seq::new(list.len(), |j: int| (list[j] as u64, (list[j] + m[list[j] + 16]) as u64))
}

/// Where the free chunks of all lists start and end, list by list.
pub open spec fn all_spans(m: Map<int, u64>, lists: Seq<Seq<int>>) -> Seq<(u64, u64)>
    decreases lists.len(),
{
    if lists.len() == 0 {
        Seq::empty()
    } else {
        all_spans(m, lists.drop_last()) + spans_of(m, lists.last())
    }
}

/// No two of the spans overlap.
pub open spec fn spans_apart(spans: Seq<(u64, u64)>) -> bool {
    forall|i: int, j: int|
        0 <= i < j < spans.len() ==> (#[trigger] spans[i]).1 <= (#[trigger] spans[j]).0
            || spans[j].1 <= spans[i].0
}

/// The spans of the first lists come first.
proof fn lemma_first_spans(m: Map<int, u64>, lists: Seq<Seq<int>>, n: int)
    requires
        0 <= n <= lists.len(),
    ensures
        all_spans(m, lists.take(n)).is_prefix_of(all_spans(m, lists)),
    decreases lists.len() - n,
{
    if n == lists.len() {
        assert(lists.take(n) =~= lists);
    } else {
        lemma_first_spans(m, lists, n + 1);
        assert(lists.take(n + 1).drop_last() =~= lists.take(n));
    }
}

/// The first of spans that do not overlap do not either.
proof fn lemma_prefix_apart(some: Seq<(u64, u64)>, all: Seq<(u64, u64)>)
    requires
        some.is_prefix_of(all),
        spans_apart(all),
    ensures
        spans_apart(some),
{
    assert(forall|i: int| 0 <= i < some.len() ==> #[trigger] some[i] == all[i]);
}

/// Distinct numbers in a range are no more than the range is long.
proof fn lemma_count(starts: Seq<int>, lo: int, hi: int)
    requires
        lo <= hi,
        starts.no_duplicates(),
        forall|i: int| 0 <= i < starts.len() ==> lo <= #[trigger] starts[i] < hi,
    ensures
        starts.len() <= hi - lo,
{
    starts.unique_seq_to_set();
    lemma_int_range(lo, hi);
    assert(starts.to_set().subset_of(set_int_range(lo, hi)));
    lemma_len_subset(starts.to_set(), set_int_range(lo, hi));
}

/// Spans in a range that do not overlap are no more than the range is long.
proof fn lemma_starts(spans: Seq<(u64, u64)>, lo: int, hi: int)
    requires
        lo <= hi,
        spans_apart(spans),
        forall|i: int|
            0 <= i < spans.len() ==> lo <= (#[trigger] spans[i]).0 < spans[i].1 <= hi,
    ensures
        spans.len() <= hi - lo,
{
    let starts = Seq::new(spans.len(), |i: int| spans[i].0 as int);
    assert forall|i: int, j: int| 0 <= i < j < starts.len() implies starts[i] != starts[j] by {
        assert(spans[i].1 <= spans[j].0 || spans[j].1 <= spans[i].0);
    }
    lemma_count(starts, lo, hi);
}

/// Whether the span from `low` to `high` overlaps one of `spans`.
fn overlaps(spans: &Vec<(u64, u64)>, low: u64, high: u64) -> (overlap: bool)
    requires
        spans_apart(spans@),
    ensures
        overlap == !spans_apart(spans@.push((low, high))),
{
    let ghost more = spans@.push((low, high));
    let mut i: usize = 0;
    while i < spans.len()
        invariant
            i <= spans.len(),
            more == spans@.push((low, high)),
            forall|k: int|
                0 <= k < i ==> (#[trigger] spans@[k]).1 <= low || high <= spans@[k].0,
        decreases spans.len() - i,
    {
        let (other_low, other_high) = spans[i];
        if !(other_high <= low || high <= other_low) {
            assert(more[i as int] == spans@[i as int] && more[spans@.len() as int] == (low, high));
            return true;
        }
        i = i + 1;
    }
    assert forall|a: int, b: int| 0 <= a < b < more.len() implies (#[trigger] more[a]).1 <= (
    #[trigger] more[b]).0 || more[b].1 <= more[a].0 by {
        assert(more[a] == spans@[a]);
        if b < spans@.len() {
            assert(more[b] == spans@[b]);
        }
    }
    false
}

impl<M: Memory, H> Talloc<M, H> {
    /// The bucket words, from which a scan starts, can be read.
    pub open(crate) spec fn scannable(&self) -> bool {
        has_bins(self.memory.words().dom(), self.llists as int)
    }

    /// Whether what memory holds of a free chunk at `b` can be read and is in order: its
    /// node, its sizes, and what tells of it above.
    pub open(crate) spec fn chunk_sound(&self, b: int) -> bool {
        let m = self.memory.words();
        let size = m[b + 16] as int;
        &&& 0 < b
        &&& b + 16 <= u64::MAX
        &&& m.dom().contains(b)
        &&& m.dom().contains(b + 16)
        &&& 8 <= size
        &&& b + size <= self.alloc_acme
        &&& m.dom().contains(b + size - 8)
        &&& m[b + size - 8] == size
        &&& if b + size < self.alloc_acme {
            m.dom().contains(b + size) && m[b + size] % 2 == 1 && m[b + size] / 2 % 2 == 1
        } else {
            self.is_top_free
        }
    }

    /// Whether the node at position `j` of `list` and the chunk it stands in are in
    /// order.
    pub open(crate) spec fn node_sound(&self, list: Seq<int>, j: int) -> bool {
        &&& self.memory.words()[list[j]] == entry(list, j + 1)
        &&& self.chunk_sound(list[j])
    }

    /// Whether memory holds `list` as the list of bucket `g`, with its chunks in order.
    pub open(crate) spec fn bucket_sound(&self, list: Seq<int>, g: int) -> bool {
        &&& self.memory.words()[self.llists + 8 * g] == entry(list, 0)
        &&& available(self.availability_low, self.availability_high, g) == (list.len() > 0)
        &&& forall|j: int| 0 <= j < list.len() ==> #[trigger] self.node_sound(list, j)
    }

    /// Whether memory holds `lists`, and the free chunks in them are in order.
    pub open(crate) spec fn sound(&self, lists: Seq<Seq<int>>) -> bool {
        &&& signed(self.alloc_base as int) <= signed(self.alloc_acme as int)
        &&& self.arena.covers(self.heap().allocatable_span())
        &&& lists.len() == 128
        &&& forall|g: int| 0 <= g < 128 ==> #[trigger] self.bucket_sound(lists[g], g)
        &&& spans_apart(all_spans(self.memory.words(), lists))
    }

    /// Whether the availability flag of bucket `g` is set.
    fn is_available(&self, g: u8) -> (flag: bool)
        requires
            g < BIN_COUNT,
        ensures
            flag == available(self.availability_low, self.availability_high, g as int),
    {
        if g < 64 {
            (self.availability_low >> (g as u64)) & 1 == 1
        } else {
            (self.availability_high >> ((g - 64) as u64)) & 1 == 1
        }
    }

    /// Where the free chunk at `ptr` ends, if what memory holds of it is in order.
    fn scan_chunk(&self, ptr: u64) -> (acme: Option<u64>)
        ensures
            acme is Some == self.chunk_sound(ptr as int),
            acme matches Some(e) ==> e == ptr + self.memory.words()[ptr + 16],
    {
        if ptr == 0 || ptr > u64::MAX - NODE_SIZE || !self.memory.has(ptr) {
            return None;
        }
        let free_chunk = FreeChunk(ptr);
        if !self.memory.has(free_chunk.size_ptr()) {
            return None;
        }
        let low_size: u64 = self.memory.read(free_chunk.size_ptr());
        if low_size < TAG_SIZE || self.alloc_acme < ptr || self.alloc_acme - ptr < low_size {
            return None;
        }
        let acme: u64 = ptr + low_size;
        if !self.memory.has(acme - TAG_SIZE) {
            return None;
        }
        let high_size: u64 = self.memory.read(acme - TAG_SIZE);
        if low_size != high_size {
            return None;
        }
        if acme < self.alloc_acme {
            if !self.memory.has(acme) {
                return None;
            }
            let upper_tag = Tag(self.memory.read(acme));
            if !upper_tag.is_allocated() || !upper_tag.is_low_free() {
                return None;
            }
        } else if !self.is_top_free {
            return None;
        }
        Some(acme)
    }

    /// The node at position `j` of `path`, behind which comes `node`, is in order.
    spec fn step_sound(&self, path: Seq<int>, node: int, j: int) -> bool {
        &&& self.memory.words()[path[j]] == entry(path.push(node), j + 1)
        &&& self.chunk_sound(path[j])
    }

    /// The list starts with `path`, behind which comes `node` or, if that is zero,
    /// nothing.
    spec fn starts_with(&self, list: Seq<int>, path: Seq<int>, node: int) -> bool {
        &&& path.is_prefix_of(list)
        &&& entry(list, path.len() as int) == node
    }

    /// One more step along a list.
    proof fn lemma_step(&self, list: Seq<int>, g: int, path: Seq<int>, node: int)
        requires
            self.bucket_sound(list, g),
            self.starts_with(list, path, node),
            node != 0,
        ensures
            path.push(node).is_prefix_of(list),
            self.chunk_sound(node),
            self.starts_with(list, path.push(node), self.memory.words()[node] as int),
            available(self.availability_low, self.availability_high, g),
            spans_of(self.memory.words(), path.push(node)).is_prefix_of(
                spans_of(self.memory.words(), list),
            ),
    {
        let n = path.len() as int;
        assert(self.node_sound(list, n));
        assert(list[n] == node);
    }

    /// One more step along a path.
    proof fn lemma_longer(&self, path: Seq<int>, node: int, next: int)
        requires
            self.chunk_sound(node),
            self.memory.words()[node] == next,
            forall|j: int| 0 <= j < path.len() ==> #[trigger] self.step_sound(path, node, j),
        ensures
            forall|j: int|
                0 <= j < path.len() + 1 ==> #[trigger] self.step_sound(path.push(node), next, j),
            entry(path.push(node).push(next), 0) == entry(path.push(node), 0),
    {
        let longer = path.push(node);
        assert forall|j: int| 0 <= j < path.len() + 1 implies #[trigger] self.step_sound(
            longer,
            next,
            j,
        ) by {
            if j < path.len() {
                assert(self.step_sound(path, node, j));
                assert(longer.push(next)[j + 1] == longer[j + 1]);
            }
        }
    }

    /// Scans the list of bucket `g`, and puts where its chunks start and end behind
    /// what `free` holds.
    fn scan_bucket(&self, g: u8, free: &mut Vec<(u64, u64)>) -> (list: Option<Ghost<Seq<int>>>)
        requires
            g < BIN_COUNT,
            self.scannable(),
            spans_apart(old(free)@),
            forall|i: int|
                0 <= i < old(free)@.len() ==> 0 < (#[trigger] old(free)@[i]).0
                    < old(free)@[i].1 <= self.alloc_acme,
        ensures
            list matches Some(found) ==> {
                &&& self.bucket_sound(found@, g as int)
                &&& final(free)@ == old(free)@ + spans_of(self.memory.words(), found@)
                &&& spans_apart(final(free)@)
                &&& forall|other: Seq<int>| #[trigger]
                    self.bucket_sound(other, g as int) ==> other == found@
                &&& forall|i: int|
                    0 <= i < final(free)@.len() ==> 0 < (#[trigger] final(free)@[i]).0
                        < final(free)@[i].1 <= self.alloc_acme
            },
            list is None ==> forall|other: Seq<int>| #[trigger]
                self.bucket_sound(other, g as int) ==> !spans_apart(
                    old(free)@ + spans_of(self.memory.words(), other),
                ),
    {
        let ghost m = self.memory.words();
        let ghost first = free@;
        let ghost mut path: Seq<int> = Seq::empty();
        let is_available: bool = self.is_available(g);
        let mut any: bool = false;
        let mut node: u64 = self.read_llist(g);
        assert(free@ =~= first + spans_of(m, path));
        while node != 0
            invariant
                g < 128,
                self.scannable(),
                m == self.memory.words(),
                is_available == available(self.availability_low, self.availability_high, g as int),
                free@ == first + spans_of(m, path),
                spans_apart(free@),
                forall|i: int|
                    0 <= i < free@.len() ==> 0 < (#[trigger] free@[i]).0 < free@[i].1
                        <= self.alloc_acme,
                any == (path.len() > 0),
                any ==> is_available,
                first == old(free)@,
                m[self.llists + 8 * g] == entry(path.push(node as int), 0),
                forall|j: int|
                    0 <= j < path.len() ==> #[trigger] self.step_sound(path, node as int, j),
                forall|other: Seq<int>| #[trigger]
                    self.bucket_sound(other, g as int) ==> self.starts_with(other, path, node as int),
            decreases self.alloc_acme - free@.len(),
        {
            proof {
                assert forall|other: Seq<int>| #[trigger]
                    self.bucket_sound(other, g as int) implies is_available && self.chunk_sound(
                    node as int,
                ) by {
                    self.lemma_step(other, g as int, path, node as int);
                }
            }
            if !is_available {
                return None;
            }
            match self.scan_chunk(node) {
                None => {
                    return None;
                },
                Some(acme) => {
                    let ghost longer = path.push(node as int);
                    let ghost some = first + spans_of(m, longer);
                    assert(free@.push((node, acme)) =~= some);
                    if overlaps(free, node, acme) {
                        proof {
                            assert forall|other: Seq<int>| #[trigger]
                                self.bucket_sound(other, g as int) implies !spans_apart(
                                first + spans_of(m, other),
                            ) by {
                                self.lemma_step(other, g as int, path, node as int);
                                let all = first + spans_of(m, other);
                                assert(some.is_prefix_of(all));
                                if spans_apart(all) {
                                    lemma_prefix_apart(some, all);
                                }
                            }
                        }
                        return None;
                    }
                    free.push((node, acme));
                    any = true;
                    let next: u64 = self.memory.read(node);
                    proof {
                        lemma_starts(free@, 0, self.alloc_acme as int);
                        self.lemma_longer(path, node as int, next as int);
                        assert forall|other: Seq<int>| #[trigger]
                            self.bucket_sound(other, g as int) implies self.starts_with(
                            other,
                            longer,
                            next as int,
                        ) by {
                            self.lemma_step(other, g as int, path, node as int);
                        }
                        path = longer;
                    }
                    node = next;
                },
            }
        }
        proof {
            assert forall|other: Seq<int>| #[trigger]
                self.bucket_sound(other, g as int) implies other == path by {
                assert(self.starts_with(other, path, 0));
                if path.len() < other.len() {
                    assert(self.node_sound(other, path.len() as int));
                }
                assert(other =~= path);
            }
        }
        if !any && is_available {
            return None;
        }
        proof {
            assert forall|j: int| 0 <= j < path.len() implies #[trigger] self.node_sound(path, j) by {
                assert(self.step_sound(path, 0, j));
            }
        }
        Some(Ghost(path))
    }

    /// Goes through the lists and holds what memory has of the free chunks against one
    /// another. Gives back where the free chunks start and end, or `None` if
    /// something is out of order.
    pub fn scan_for_errors(&self) -> (free: Option<Vec<(u64, u64)>>)
        requires
            self.scannable(),
        ensures
            free is Some <==> exists|lists: Seq<Seq<int>>| self.sound(lists),
            free matches Some(spans) ==> forall|lists: Seq<Seq<int>>| #[trigger]
                self.sound(lists) ==> spans@ == all_spans(self.words(), lists),
    {
        let ghost m = self.memory.words();
        if to_signed(self.alloc_acme) < to_signed(self.alloc_base) {
            return None;
        }
        let alloc_span = Span::new(to_signed(self.alloc_base), to_signed(self.alloc_acme));
        if !self.arena.contains_span(alloc_span) {
            return None;
        }
        let mut free: Vec<(u64, u64)> = Vec::new();
        let ghost mut found: Seq<Seq<int>> = Seq::empty();
        let mut g: u8 = 0;
        while g < BIN_COUNT as u8
            invariant
                g <= 128,
                self.scannable(),
                m == self.memory.words(),
                found.len() == g,
                free@ == all_spans(m, found),
                spans_apart(free@),
                forall|i: int|
                    0 <= i < free@.len() ==> 0 < (#[trigger] free@[i]).0 < free@[i].1
                        <= self.alloc_acme,
                forall|k: int| 0 <= k < g ==> #[trigger] self.bucket_sound(found[k], k),
                forall|k: int, other: Seq<int>|
                    0 <= k < g && #[trigger] self.bucket_sound(other, k) ==> other == found[k],
            decreases 128 - g,
        {
            let ghost first = free@;
            match self.scan_bucket(g, &mut free) {
                None => {
                    proof {
                        assert forall|lists: Seq<Seq<int>>| !self.sound(lists) by {
                            if self.sound(lists) {
                                let list = lists[g as int];
                                assert(self.bucket_sound(list, g as int));
                                assert forall|k: int| 0 <= k < g implies lists[k] == found[k] by {
                                    assert(self.bucket_sound(lists[k], k));
                                }
                                let some = found.push(list);
                                assert(lists.take(g + 1) =~= some);
                                assert(some.drop_last() =~= found);
                                lemma_first_spans(m, lists, g + 1);
                                assert(all_spans(m, some) == first + spans_of(m, list));
                                lemma_prefix_apart(first + spans_of(m, list), all_spans(m, lists));
                            }
                        }
                    }
                    return None;
                },
                Some(list) => {
                    proof {
                        let some = found.push(list@);
                        assert(some.drop_last() =~= found);
                        found = some;
                    }
                },
            }
            g = g + 1;
        }
        proof {
            assert(self.sound(found));
            assert forall|lists: Seq<Seq<int>>| #[trigger] self.sound(lists) implies free@
                == all_spans(m, lists) by {
                assert forall|k: int| 0 <= k < 128 implies lists[k] == found[k] by {
                    assert(self.bucket_sound(lists[k], k));
                }
                assert(lists =~= found);
            }
        }
        Some(free)
    }
}

/// Whether the span is that of a free chunk of a bucket below `n`.
spec fn is_span(chunks: Map<int, Chunk>, n: int, span: (u64, u64)) -> bool {
    &&& is_free(chunks, span.0 as int)
    &&& chunks[span.0 as int].acme == span.1
    &&& bucket_of(chunks, span.0 as int) < n
}

impl<M: Memory, H> Talloc<M, H> {
    /// What memory holds of a free chunk of an allocator that is well formed is in
    /// order.
    proof fn lemma_chunk_sound(&self, b: int)
        requires
            self.wf(),
            is_free(self.chunks@, b),
        ensures
            self.chunk_sound(b),
            self.words()[b + 16] == self.chunks@[b].acme - b,
    {
        let chunks = self.chunks@;
        let e = chunks[b].acme;
        self.lemma_sizes(b);
        assert(followed(chunks, self.alloc_acme as int, b));
        assert(lone(chunks, b));
        assert(ends_free(chunks, e));
        self.lemma_laid_out();
        assert(self.memory.words().dom().contains(b));
        if e < self.alloc_acme {
            assert(self.memory.words().dom().contains(e));
            assert(tag_ok(self.memory.words(), chunks, e));
            lemma_tag_word(self.memory.words()[e], chunks[e].acme, true);
        }
    }

    /// The spans of one list.
    proof fn lemma_list_spans(&self, g: int)
        requires
            self.wf(),
            0 <= g < 128,
        ensures
            forall|i: int|
                0 <= i < self.lists@[g].len() ==> is_span(
                    self.chunks@,
                    g + 1,
                    #[trigger] spans_of(self.words(), self.lists@[g])[i],
                ) && bucket_of(
                    self.chunks@,
                    spans_of(self.words(), self.lists@[g])[i].0 as int,
                ) == g,
            spans_apart(spans_of(self.words(), self.lists@[g])),
    {
        let chunks = self.chunks@;
        let list = self.lists@[g];
        let spans = spans_of(self.words(), list);
        reveal(Talloc::recorded);
        assert forall|i: int| 0 <= i < list.len() implies is_span(
            chunks,
            g + 1,
            #[trigger] spans[i],
        ) && bucket_of(chunks, spans[i].0 as int) == g && spans[i].0 == list[i] by {
            assert(is_free(chunks, list[i]));
            self.lemma_chunk_sound(list[i]);
        }
        assert forall|i: int, j: int| 0 <= i < j < spans.len() implies (#[trigger] spans[i]).1 <= (
        #[trigger] spans[j]).0 || spans[j].1 <= spans[i].0 by {
            assert(list[i] != list[j]);
            assert(is_span(chunks, g + 1, spans[i]) && is_span(chunks, g + 1, spans[j]));
        }
    }

    /// The spans of the first `n` lists.
    proof fn lemma_lists_spans(&self, n: int)
        requires
            self.wf(),
            0 <= n <= 128,
        ensures
            forall|i: int|
                0 <= i < all_spans(self.words(), self.lists@.take(n)).len() ==> is_span(
                    self.chunks@,
                    n,
                    #[trigger] all_spans(self.words(), self.lists@.take(n))[i],
                ),
            spans_apart(all_spans(self.words(), self.lists@.take(n))),
        decreases n,
    {
        let chunks = self.chunks@;
        let lists = self.lists@;
        let m = self.words();
        let all = all_spans(m, lists.take(n));
        assert(lists.len() == 128) by {
            reveal(Talloc::recorded);
        }
        self.lemma_laid_out();
        if n > 0 {
            self.lemma_lists_spans(n - 1);
            self.lemma_list_spans(n - 1);
            assert(lists.take(n).drop_last() =~= lists.take(n - 1));
            let some = all_spans(m, lists.take(n - 1));
            let more = spans_of(m, lists[n - 1]);
            assert(all == some + more);
            assert forall|i: int| 0 <= i < all.len() implies is_span(chunks, n, #[trigger] all[i]) by {
                if i < some.len() {
                    assert(is_span(chunks, n - 1, some[i]));
                } else {
                    assert(is_span(chunks, n, more[i - some.len()]));
                }
            }
            assert forall|i: int, j: int| 0 <= i < j < all.len() implies (#[trigger] all[i]).1 <= (
            #[trigger] all[j]).0 || all[j].1 <= all[i].0 by {
                assert(is_span(chunks, n, all[i]) && is_span(chunks, n, all[j]));
                if j < some.len() {
                    assert(all[i] == some[i] && all[j] == some[j]);
                } else if i >= some.len() {
                    assert(all[i] == more[i - some.len()] && all[j] == more[j - some.len()]);
                } else {
                    assert(all[i] == some[i] && all[j] == more[j - some.len()]);
                    assert(is_span(chunks, n - 1, some[i]));
                }
            }
        }
    }

    /// A scan of an allocator that is well formed finds nothing out of order, and
    /// gives back where its free chunks start and end, and nothing else.
    pub proof fn law_scan(&self)
        requires
            self.wf(),
        ensures
            self.scannable(),
            self.sound(self.heap().lists),
            forall|b: int| #[trigger]
                is_free(self.heap().chunks, b) ==> all_spans(
                    self.words(),
                    self.heap().lists,
                ).contains((b as u64, self.heap().chunks[b].acme as u64)),
            forall|i: int|
                0 <= i < all_spans(self.words(), self.heap().lists).len() ==> {
                    let span = #[trigger] all_spans(self.words(), self.heap().lists)[i];
                    &&& is_free(self.heap().chunks, span.0 as int)
                    &&& self.heap().chunks[span.0 as int].acme == span.1
                },
    {
        let chunks = self.chunks@;
        let lists = self.lists@;
        let m = self.words();
        assert(self.scannable() && lists.len() == 128) by {
            reveal(Talloc::recorded);
        }
        assert(lists.take(128) =~= lists);
        self.lemma_lists_spans(128);
        self.lemma_span_covered();
        assert forall|g: int| 0 <= g < 128 implies #[trigger] self.bucket_sound(lists[g], g) by {
            reveal(Talloc::recorded);
            assert forall|j: int| 0 <= j < lists[g].len() implies #[trigger] self.node_sound(
                lists[g],
                j,
            ) by {
                assert(is_free(chunks, lists[g][j]));
                assert(node_ok(self.memory.words(), self.llists as int, lists, g, j));
                self.lemma_chunk_sound(lists[g][j]);
            }
        }
        assert forall|i: int| 0 <= i < all_spans(m, lists).len() implies ({
            let span = #[trigger] all_spans(m, lists)[i];
            is_free(chunks, span.0 as int) && chunks[span.0 as int].acme == span.1
        }) by {
            assert(is_span(chunks, 128, all_spans(m, lists)[i]));
        }
        assert forall|b: int| #[trigger] is_free(chunks, b) implies all_spans(m, lists).contains(
            (b as u64, chunks[b].acme as u64),
        ) by {
            reveal(Talloc::recorded);
            let j: int = lemma_list_position(chunks, lists, b);
            let g: int = bucket_of(chunks, b);
            self.lemma_chunk_sound(b);
            lemma_first_spans(m, lists, g + 1);
            let some = lists.take(g + 1);
            assert(some.drop_last() =~= lists.take(g));
            let at = all_spans(m, lists.take(g)).len() + j;
            assert(spans_of(m, lists[g])[j] == (b as u64, chunks[b].acme as u64));
            assert(all_spans(m, some)[at] == spans_of(m, lists[g])[j]);
            assert(all_spans(m, lists)[at] == (b as u64, chunks[b].acme as u64));
        }
    }

    /// The heap lies in the arena.
    pub(crate) proof fn lemma_span_covered(&self)
        requires
            self.wf(),
        ensures
            signed(self.alloc_base as int) <= signed(self.alloc_acme as int),
            self.arena.covers(self.heap().allocatable_span()),
    {
        self.lemma_laid_out();
        if self.alloc_base < self.alloc_acme {
            lemma_in_arena(
                self.memory.words().dom(),
                self.llists as int,
                self.arena,
                self.alloc_base as int,
                self.alloc_acme as int,
            );
            lemma_part(self.arena, self.alloc_base as int, self.alloc_acme as int);
        }
    }
}

/// Where the span of a listed chunk stands among all spans.
proof fn lemma_span_at(m: Map<int, u64>, lists: Seq<Seq<int>>, g: int, j: int)
    requires
        0 <= g < lists.len(),
        0 <= j < lists[g].len(),
    ensures
        ({
            let at = all_spans(m, lists.take(g)).len() + j;
            &&& at < all_spans(m, lists.take(g + 1)).len() <= all_spans(m, lists).len()
            &&& all_spans(m, lists)[at] == spans_of(m, lists[g])[j]
        }),
{
    lemma_first_spans(m, lists, g + 1);
    assert(lists.take(g + 1).drop_last() =~= lists.take(g));
    let at = all_spans(m, lists.take(g)).len() + j;
    assert(all_spans(m, lists.take(g + 1))[at] == spans_of(m, lists[g])[j]);
}

impl<M: Memory, H> Talloc<M, H> {
    /// Whether bucket `g` is marked as holding a chunk.
    pub open(crate) spec fn marked(&self, g: int) -> bool {
        available(self.availability_low, self.availability_high, g)
    }

    /// Where a scan finds nothing out of order, the bucket words lead through all listed
    /// chunks, the buckets that hold some are marked and no others, each chunk has its
    /// size at both ends and ends in the heap, and what stands above it, or the mark of
    /// a free top, tells that it is free.
    pub proof fn law_scan_finds(&self, lists: Seq<Seq<int>>, g: int, j: int)
        requires
            self.sound(lists),
            0 <= g < 128,
        ensures
            lists.len() == 128,
            self.words()[self.bins() + 8 * g] == if lists[g].len() > 0 {
                lists[g][0]
            } else {
                0
            },
            self.marked(g) <==> lists[g].len() > 0,
            0 <= j < lists[g].len() ==> {
                let m = self.words();
                let b = lists[g][j];
                let size = m[b + 16] as int;
                &&& m[b] == if j + 1 < lists[g].len() {
                    lists[g][j + 1]
                } else {
                    0
                }
                &&& 0 < b
                &&& 8 <= size
                &&& m[b + size - 8] == size
                &&& b + size <= self.heap().acme
                &&& if b + size == self.heap().acme {
                    self.top_free()
                } else {
                    m[b + size] % 4 == 3
                }
            },
            self.heap().arena.covers(self.heap().allocatable_span()),
    {
        assert(self.bucket_sound(lists[g], g));
        if 0 <= j < lists[g].len() {
            assert(self.node_sound(lists[g], j));
        }
    }

    /// Where a scan finds nothing out of order, no two listed chunks overlap.
    pub proof fn law_scan_apart(&self, lists: Seq<Seq<int>>, g: int, i: int, h: int, j: int)
        requires
            self.sound(lists),
            0 <= g <= h < 128,
            0 <= i < lists[g].len(),
            0 <= j < lists[h].len(),
            g < h || i < j,
        ensures
            ({
                let m = self.words();
                let b = lists[g][i];
                let c = lists[h][j];
                b + m[b + 16] <= c || c + m[c + 16] <= b
            }),
    {
        let m = self.memory.words();
        assert(self.bucket_sound(lists[g], g) && self.bucket_sound(lists[h], h));
        assert(self.node_sound(lists[g], i) && self.node_sound(lists[h], j));
        lemma_span_at(m, lists, g, i);
        lemma_span_at(m, lists, h, j);
        if g < h {
            let firsts = lists.take(h);
            lemma_first_spans(m, firsts, g + 1);
            assert(firsts.take(g + 1) =~= lists.take(g + 1));
        }
        let at = all_spans(m, lists.take(g)).len() + i;
        let to = all_spans(m, lists.take(h)).len() + j;
        assert(at < to);
        let spans = all_spans(m, lists);
        assert(spans[at].1 <= spans[to].0 || spans[to].1 <= spans[at].0);
    }
}

} // verus!
