use crate::bucket::{bucket, g_of_size};
use crate::chunk::FreeChunk;
use crate::layout::Layout;
use crate::llist::{entry, node_ok};
use crate::memory::Memory;
use crate::model::{
    alloc_ptr, bucket_of, chunk_fits, ends_free, followed, in_free, is_free, is_multiple,
    lemma_first_fit, lone, required, required_acme, reserve_from, reserve_to, same_outside,
    sufficient, use_fits, Chunk, Heap, Use,
};
use crate::oom::{same_allocation, served, served_through, spared, AllocError, OomHandler};
use crate::tag::{lemma_tag_word, tag_word, Tag};
use crate::talloc::{available, frame, frame_but, kept, lemma_not_in_free, tag_ok, Talloc};
use crate::word::{
    align_down, align_up, ge_min_size_apart, lemma_multiple_of_words, lemma_pow2_words,
    lemma_round_up, low_aligned_fit, MIN_CHUNK_SIZE, TAG_SIZE, WORD_SIZE,
};
use vstd::prelude::*;

verus! {

/// Where an allocation stands in a free chunk.
pub proof fn lemma_alloc_ptr(b: int, layout: Layout)
    requires
        layout.valid(),
        b % 8 == 0,
    ensures
        b + 8 <= alloc_ptr(b, layout),
        alloc_ptr(b, layout) % 8 == 0,
        is_multiple(alloc_ptr(b, layout), layout.align() as int),
        layout.align() <= 8 ==> alloc_ptr(b, layout) == b + 8,
{
    reveal(alloc_ptr);
    reveal(is_multiple);
    let n = layout.align() as int;
    lemma_round_up(b + 8, n);
    lemma_pow2_words(n);
    if n % 8 == 0 {
        lemma_multiple_of_words(alloc_ptr(b, layout), n);
    } else {
        assert((b + 8) % n == 0);
        assert(alloc_ptr(b, layout) <= b + 8);
    }
    if n == 8 {
        assert(alloc_ptr(b, layout) <= b + 8);
    }
}

/// How a free chunk with room for a request is divided.
pub(crate) proof fn lemma_room(b: int, e: int, layout: Layout)
    requires
        layout.valid(),
        layout.size() > 0,
        0 < b,
        b % 8 == 0,
        e % 8 == 0,
        b + 24 <= e <= u64::MAX,
        sufficient(b, e, layout),
    ensures
        ({
            let ptr = alloc_ptr(b, layout);
            let t = reserve_from(b, e, ptr);
            let req = required_acme(t, ptr, layout.size() as int);
            let end = reserve_to(req, e);
            &&& ptr % 8 == 0
            &&& b + 8 <= ptr < e
            &&& ptr + layout.size() + 7 <= u64::MAX
            &&& b <= t
            &&& t == b || b + 24 <= t
            &&& t % 8 == 0
            &&& t + 24 <= req <= e
            &&& req % 8 == 0
            &&& end == e || end + 24 <= e
            &&& req <= end
            &&& use_fits(t, end, Use { ptr, layout })
        }),
{
    lemma_alloc_ptr(b, layout);
}

impl<M: Memory, H> Talloc<M, H> {
    /// No chunk reaches into the place of a free chunk that has left the record.
    pub(crate) proof fn lemma_limbo(&self, after: Self, c: int)
        requires
            self.recorded(),
            self.chunks@.dom().contains(c),
            after.chunks@ == self.chunks@.remove(c),
        ensures
            forall|b: int| #[trigger]
                after.chunks@.dom().contains(b) ==> after.chunks@[b].acme <= c
                    || self.chunks@[c].acme <= b,
    {
        self.lemma_laid_out();
    }

    /// The size of chunk that a request of `size` bytes needs at least.
    pub(crate) fn required_chunk_size(size: u64) -> (chunk_size: u64)
        requires
            size <= u64::MAX - 15,
        ensures
            chunk_size == required(size as int),
            chunk_size >= MIN_CHUNK_SIZE,
            chunk_size >= size + 8,
    {
        if size <= MIN_CHUNK_SIZE - TAG_SIZE {
            MIN_CHUNK_SIZE
        } else {
            align_up(size + TAG_SIZE)
        }
    }

    /// Where a request can be met in the free chunk at `ptr`, if it can be.
    fn alloc_ptr_in(ptr: u64, chunk_size: u64, req_chunk_size: u64, layout: Layout) -> (found: Option<
        u64,
    >)
        requires
            layout.valid(),
            req_chunk_size == required(layout.size() as int),
            req_chunk_size >= layout.size() + 8,
            ptr % 8 == 0,
            ptr + chunk_size <= u64::MAX,
            chunk_size >= MIN_CHUNK_SIZE,
        ensures
            found is Some <==> sufficient(ptr as int, ptr + chunk_size, layout),
            found matches Some(p) ==> p == alloc_ptr(ptr as int, layout),
    {
        proof {
            lemma_alloc_ptr(ptr as int, layout);
            reveal(alloc_ptr);
        }
        if chunk_size < req_chunk_size {
            return None;
        }
        if layout.align() <= WORD_SIZE {
            // just above the tag is where the memory starts
            return Some(ptr + TAG_SIZE);
        }
        match low_aligned_fit(ptr + TAG_SIZE, layout.align() - 1) {
            Some(aligned_ptr) => if aligned_ptr <= ptr + chunk_size && layout.size() <= ptr
                + chunk_size - aligned_ptr {
                Some(aligned_ptr)
            } else {
                None
            },
            None => None,
        }
    }

    /// Finds the free chunk for a request: its bucket, its address, its size and
    /// where in it the allocation will stand.
    fn find_sufficient_chunk(&self, layout: Layout) -> (found: Option<(u8, u64, u64, u64)>)
        requires
            self.recorded(),
            layout.valid(),
        ensures
            found is Some <==> self.heap().fit(layout) is Some,
            found matches Some((g, b, size, ptr)) ==> {
                &&& self.heap().fit(layout) == Some(b as int)
                &&& is_free(self.chunks@, b as int)
                &&& g == bucket_of(self.chunks@, b as int)
                &&& self.chunks@[b as int].acme == b + size
                &&& ptr == alloc_ptr(b as int, layout)
                &&& sufficient(b as int, b + size, layout)
            },
    {
        let req_chunk_size: u64 = Self::required_chunk_size(layout.size());
        let ghost lists = self.lists@;
        let ghost chunks = self.chunks@;
        let ghost heap = self.heap();
        let ghost llists = self.llists as int;
        let ghost m = self.memory.words();
        let ghost g0 = bucket(required(layout.size() as int));
        let first: u8 = g_of_size(req_chunk_size);
        let mut g: i8 = first as i8 - 1;
        proof {
            reveal(Talloc::recorded);
        }
        loop
            invariant
                self.recorded(),
                layout.valid(),
                req_chunk_size == required(layout.size() as int),
                req_chunk_size >= layout.size() + 8,
                g0 == bucket(required(layout.size() as int)),
                0 <= g0,
                g0 - 1 <= g,
                lists == self.lists@,
                chunks == self.chunks@,
                heap == self.heap(),
                llists == self.llists,
                m == self.memory.words(),
                forall|h: int, i: int|
                    g0 <= h <= g && 0 <= i < lists[h].len() ==> !heap.has_room(
                        #[trigger] lists[h][i],
                        layout,
                    ),
            decreases 128 - g,
        {
            let ghost below = g as int;
            match self.g_of_larger_nonempty_bucket(g) {
                None => {
                    proof {
                        reveal(Talloc::recorded);
                        assert forall|h: int, j: int| !heap.is_first_fit(layout, h, j) by {
                            if heap.is_first_fit(layout, h, j) {
                                assert(lists[h].len() > 0);
                                if h > g {
                                    assert(!available(
                                        self.availability_low,
                                        self.availability_high,
                                        h,
                                    ));
                                }
                                assert(!heap.has_room(lists[h][j], layout));
                            }
                        }
                    }
                    return None;
                },
                Some(larger) => {
                    g = larger;
                },
            }
            proof {
                reveal(Talloc::recorded);
            }
            let mut node: u64 = self.read_llist(g as u8);
            let ghost mut j: int = 0;
            proof {
                assert(m[llists + 8 * g] == entry(lists[g as int], 0));
                assert forall|h: int, i: int|
                    g0 <= h < g && 0 <= i < lists[h].len() implies !heap.has_room(
                    #[trigger] lists[h][i],
                    layout,
                ) by {
                    if h > below {
                        assert(!available(self.availability_low, self.availability_high, h));
                        assert(lists[h].len() == 0);
                    }
                }
            }
            while node != 0
                invariant
                    self.recorded(),
                    layout.valid(),
                    req_chunk_size == required(layout.size() as int),
                    req_chunk_size >= layout.size() + 8,
                    g0 == bucket(required(layout.size() as int)),
                    0 <= g0 <= g,
                    lists == self.lists@,
                    chunks == self.chunks@,
                    heap == self.heap(),
                    llists == self.llists,
                    m == self.memory.words(),
                    0 <= j <= lists[g as int].len(),
                    node == entry(lists[g as int], j),
                    forall|h: int, i: int|
                        g0 <= h < g && 0 <= i < lists[h].len() ==> !heap.has_room(
                            #[trigger] lists[h][i],
                            layout,
                        ),
                    forall|i: int|
                        0 <= i < j ==> !heap.has_room(#[trigger] lists[g as int][i], layout),
                decreases lists[g as int].len() - j,
            {
                let free_chunk = FreeChunk(node);
                proof {
                    reveal(Talloc::recorded);
                    assert(is_free(chunks, lists[g as int][j]));
                    self.lemma_sizes(node as int);
                    assert(node_ok(m, llists, lists, g as int, j));
                }
                let chunk_size: u64 = self.memory.read(free_chunk.size_ptr());
                match Self::alloc_ptr_in(node, chunk_size, req_chunk_size, layout) {
                    Some(ptr) => {
                        proof {
                            assert(heap.is_first_fit(layout, g as int, j));
                            lemma_first_fit(heap, layout, g as int, j);
                        }
                        return Some((g as u8, node, chunk_size, ptr));
                    },
                    None => {},
                }
                proof {
                    if j + 1 < lists[g as int].len() {
                        assert(is_free(chunks, lists[g as int][j + 1]));
                    }
                    j = j + 1;
                }
                node = self.memory.read(free_chunk.node_ptr());
            }
            proof {
                reveal(Talloc::recorded);
                if j < lists[g as int].len() {
                    assert(is_free(chunks, lists[g as int][j]));
                }
            }
        }
    }

    /// Takes the free chunk for a request out of the record. Returns where the chunk
    /// starts and ends, and where in it the allocation will stand.
    pub(crate) fn get_sufficient_chunk(&mut self, layout: Layout) -> (found: Option<(u64, u64, u64)>)
        requires
            old(self).recorded(),
            layout.valid(),
        ensures
            found is Some <==> old(self).heap().fit(layout) is Some,
            found is None ==> *final(self) == *old(self),
            found matches Some((b, acme, ptr)) ==> {
                &&& old(self).heap().fit(layout) == Some(b as int)
                &&& is_free(old(self).chunks@, b as int)
                &&& acme == old(self).chunks@[b as int].acme
                &&& ptr == alloc_ptr(b as int, layout)
                &&& sufficient(b as int, acme as int, layout)
                &&& final(self).recorded()
                &&& final(self).same_bounds(old(self))
                &&& final(self).heap() == old(self).heap().strike(b as int)
                &&& frame(
                    old(self).memory.words(),
                    final(self).memory.words(),
                    old(self).llists as int,
                    old(self).chunks@,
                )
            },
    {
        match self.find_sufficient_chunk(layout) {
            Some((g, node, chunk_size, ptr)) => {
                proof {
                    self.lemma_sizes(node as int);
                }
                let free_chunk = FreeChunk(node);
                self.remove_chunk_from_record(free_chunk.node_ptr(), g);
                Some((free_chunk.ptr(), free_chunk.ptr() + chunk_size, ptr))
            },
            None => None,
        }
    }

    /// Decides where the reserved chunk starts in the space from `free_chunk_ptr` to
    /// `free_chunk_acme` that is to hold an allocation at `alloc_ptr`, records what
    /// is left below, and leaves the way to the tag. Returns where the tag will
    /// stand, and whether there is a free chunk below it.
    fn carve_below(&mut self, free_chunk_ptr: u64, free_chunk_acme: u64, alloc_ptr: u64) -> (start: (
        u64,
        bool,
    ))
        requires
            old(self).recorded(),
            0 < old(self).alloc_base <= free_chunk_ptr,
            free_chunk_acme <= old(self).alloc_acme,
            free_chunk_ptr + 24 <= free_chunk_acme,
            free_chunk_ptr % 8 == 0,
            free_chunk_acme % 8 == 0,
            alloc_ptr % 8 == 0,
            free_chunk_ptr + 8 <= alloc_ptr < free_chunk_acme,
            forall|b: int| #[trigger]
                old(self).chunks@.dom().contains(b) ==> old(self).chunks@[b].acme <= free_chunk_ptr
                    || free_chunk_acme <= b,
        ensures
            final(self).recorded(),
            final(self).same_bounds(old(self)),
            start.0 == reserve_from(
                free_chunk_ptr as int,
                free_chunk_acme as int,
                alloc_ptr as int,
            ),
            start.1 == (start.0 != free_chunk_ptr),
            start.0 % 8 == 0,
            free_chunk_ptr <= start.0,
            start.0 + 24 <= free_chunk_acme,
            start.0 + 8 <= alloc_ptr,
            final(self).heap() == if start.0 == free_chunk_ptr {
                old(self).heap()
            } else {
                old(self).heap().record(free_chunk_ptr as int, start.0 as int)
            },
            alloc_ptr - 8 != start.0 ==> final(self).memory.words()[alloc_ptr - 8] == start.0,
            frame_but(
                old(self).memory.words(),
                final(self).memory.words(),
                old(self).llists as int,
                final(self).chunks@,
                alloc_ptr - 8,
                alloc_ptr - 8,
            ),
    {
        let ghost s0 = *self;
        proof {
            self.lemma_laid_out();
        }
        let pre_alloc_ptr: u64 = align_down(alloc_ptr - TAG_SIZE);
        let mut tag_ptr: u64 = if free_chunk_acme - MIN_CHUNK_SIZE < pre_alloc_ptr {
            free_chunk_acme - MIN_CHUNK_SIZE
        } else {
            pre_alloc_ptr
        };
        let mut is_low_free = false;
        if ge_min_size_apart(free_chunk_ptr, tag_ptr) {
            self.add_chunk_to_record(free_chunk_ptr, tag_ptr);
            is_low_free = true;
        } else {
            tag_ptr = free_chunk_ptr;
        }
        let ghost s1 = *self;
        if tag_ptr != pre_alloc_ptr {
            self.memory.write(pre_alloc_ptr, tag_ptr);
            proof {
                assert(self.memory.words().dom() =~= s1.memory.words().dom());
                assert(!in_free(self.chunks@, pre_alloc_ptr as int));
                Self::lemma_recorded(s1, *self);
            }
        }
        (tag_ptr, is_low_free)
    }

    /// Decides where the reserved chunk ends that needs the space up to `req_acme` and
    /// could have that up to `acme`: records what is left above if it is enough for
    /// a chunk, and else tells what is above that there is no free chunk below it
    /// any more.
    pub(crate) fn carve_above(&mut self, req_acme: u64, acme: u64) -> (end: u64)
        requires
            old(self).recorded(),
            0 < old(self).alloc_base <= req_acme <= acme <= old(self).alloc_acme,
            req_acme % 8 == 0,
            acme % 8 == 0,
            forall|b: int| #[trigger]
                old(self).chunks@.dom().contains(b) ==> old(self).chunks@[b].acme <= req_acme
                    || acme <= b,
            acme < old(self).alloc_acme ==> {
                &&& old(self).chunks@.dom().contains(acme as int)
                &&& old(self).chunks@[acme as int].used is Some
                &&& old(self).memory.words()[acme as int] == tag_word(
                    old(self).chunks@[acme as int].acme,
                    true,
                )
            },
        ensures
            final(self).recorded(),
            *final(self) == (Talloc {
                memory: final(self).memory,
                is_top_free: final(self).is_top_free,
                availability_low: final(self).availability_low,
                availability_high: final(self).availability_high,
                chunks: final(self).chunks,
                lists: final(self).lists,
                ..*old(self)
            }),
            end == reserve_to(req_acme as int, acme as int),
            final(self).heap() == if end == acme {
                old(self).heap()
            } else {
                old(self).heap().record(end as int, acme as int)
            },
            final(self).is_top_free == (old(self).is_top_free && !(end == acme && acme == old(
                self).alloc_acme)),
            acme < old(self).alloc_acme ==> final(self).memory.words()[acme as int] == tag_word(
                old(self).chunks@[acme as int].acme,
                end != acme,
            ),
            acme == old(self).alloc_acme && !(old(self).llists <= acme < old(self).llists + 1024)
                ==> final(self).memory.words()[acme as int] == old(self).memory.words()[acme as int],
            frame_but(
                old(self).memory.words(),
                final(self).memory.words(),
                old(self).llists as int,
                final(self).chunks@,
                acme as int,
                acme as int,
            ),
    {
        let ghost s0 = *self;
        let ghost e = acme as int;
        proof {
            self.lemma_laid_out();
        }
        if ge_min_size_apart(req_acme, acme) {
            self.add_chunk_to_record(req_acme, acme);
            proof {
                self.lemma_laid_out();
                if e < s0.alloc_acme {
                    lemma_not_in_free(self.chunks@, e);
                } else {
                    assert(!in_free(self.chunks@, e));
                }
            }
            return req_acme;
        }
        if acme != self.alloc_acme {
            proof {
                lemma_tag_word(self.memory.words()[e], self.chunks@[e].acme, true);
                assert(chunk_fits(
                    self.alloc_base as int,
                    self.alloc_acme as int,
                    e,
                    self.chunks@[e],
                ));
            }
            Tag::clear_low_free(&mut self.memory, acme);
            proof {
                assert(self.memory.words().dom() =~= s0.memory.words().dom());
                lemma_not_in_free(self.chunks@, e);
                Self::lemma_recorded(s0, *self);
            }
        } else {
            self.is_top_free = false;
            proof {
                Self::lemma_same_record(s0, *self);
            }
        }
        acme
    }

    /// Writes the tag of a new reserved chunk from `tag_ptr` to `acme`.
    fn seal(
        &mut self,
        tag_ptr: u64,
        acme: u64,
        is_low_free: bool,
        Ghost(u): Ghost<Use>,
    )
        requires
            old(self).recorded(),
            chunk_fits(
                old(self).alloc_base as int,
                old(self).alloc_acme as int,
                tag_ptr as int,
                (Chunk { acme: acme as int, used: Some(u) }),
            ),
            forall|b: int| #[trigger]
                old(self).chunks@.dom().contains(b) ==> old(self).chunks@[b].acme <= tag_ptr || acme
                    <= b,
        ensures
            final(self).recorded(),
            *final(self) == (Talloc {
                memory: final(self).memory,
                chunks: final(self).chunks,
                ..*old(self)
            }),
            final(self).heap() == old(self).heap().reserve(tag_ptr as int, acme as int, u),
            final(self).memory.words().dom() == old(self).memory.words().dom(),
            final(self).memory.words()[tag_ptr as int] == tag_word(acme as int, is_low_free),
            forall|a: int|
                a != tag_ptr ==> #[trigger] final(self).memory.words()[a] == old(
                    self).memory.words()[a],
    {
        let ghost s0 = *self;
        proof {
            self.lemma_laid_out();
        }
        self.memory.write(tag_ptr, Tag::new(acme, is_low_free).0);
        let ghost s1 = *self;
        proof {
            assert(self.memory.words().dom() =~= s0.memory.words().dom());
            assert(!in_free(self.chunks@, tag_ptr as int));
            Self::lemma_recorded(s0, *self);
            let chunk = Chunk { acme: acme as int, used: Some(u) };
            self.chunks@ = self.chunks@.insert(tag_ptr as int, chunk);
            Self::lemma_reserve(s1, *self, tag_ptr as int, chunk);
        }
    }

    /// The steps of meeting a request from the free chunk from `c` to `e` lead to an
    /// allocator that is well formed: `s1` is the state without the free chunk,
    /// `s2` that with what is left below, `s3` that with what is left above, and
    /// `after` that with the reserved chunk from `t` to `end`.
    #[verifier::rlimit(30)]
    proof fn lemma_allocated(
        s0: Self,
        s1: Self,
        s2: Self,
        s3: Self,
        after: Self,
        c: int,
        e: int,
        t: int,
        end: int,
        u: Use,
    )
        requires
            s0.wf(),
            is_free(s0.chunks@, c),
            s0.chunks@[c].acme == e,
            c <= t,
            t == c || c + 24 <= t,
            t + 24 <= end,
            end == e || end + 24 <= e,
            use_fits(t, end, u),
            s1.heap() == s0.heap().strike(c),
            frame(s0.memory.words(), s1.memory.words(), s0.llists as int, s0.chunks@),
            s2.heap() == if t == c {
                s1.heap()
            } else {
                s1.heap().record(c, t)
            },
            u.ptr - 8 != t ==> s2.memory.words()[u.ptr - 8] == t,
            frame_but(
                s1.memory.words(),
                s2.memory.words(),
                s0.llists as int,
                s2.chunks@,
                u.ptr - 8,
                u.ptr - 8,
            ),
            s3.heap() == if end == e {
                s2.heap()
            } else {
                s2.heap().record(end, e)
            },
            frame_but(s2.memory.words(), s3.memory.words(), s0.llists as int, s3.chunks@, e, e),
            e < s0.alloc_acme ==> s3.memory.words()[e] == tag_word(s0.chunks@[e].acme, end != e),
            e == s0.alloc_acme && !(s0.llists <= e < s0.llists + 1024) ==> s3.memory.words()[e]
                == s2.memory.words()[e],
            after.heap() == s3.heap().reserve(t, end, u),
            after.memory.words().dom() == s3.memory.words().dom(),
            after.memory.words()[t] == tag_word(end, t != c),
            forall|a: int|
                a != t ==> #[trigger] after.memory.words()[a] == s3.memory.words()[a],
            after.is_top_free == (s0.is_top_free && !(end == e && e == s0.alloc_acme)),
            after.same_bounds(&Talloc { is_top_free: after.is_top_free, ..s0 }),
            after.recorded(),
        ensures
            after.wf(),
            kept(s0.heap(), s0.words(), after.heap(), after.words(), s0.bins()),
    {
        let c0 = s0.chunks@;
        let c2 = s2.chunks@;
        let c3 = s3.chunks@;
        let c4 = after.chunks@;
        let llists = s0.llists as int;
        let m0 = s0.memory.words();
        let m1 = s1.memory.words();
        let m2 = s2.memory.words();
        let m3 = s3.memory.words();
        let m4 = after.memory.words();
        let lo = s0.alloc_base as int;
        let hi = s0.alloc_acme as int;
        s0.lemma_laid_out();
        after.lemma_laid_out();
        assert(chunk_fits(lo, hi, c, c0[c]));
        assert(lone(c0, c));
        assert(followed(c0, hi, c));
        assert(c0.dom().contains(c));
        // what is free on the way was free before
        assert forall|a: int| #[trigger] in_free(c3, a) implies in_free(c0, a) by {
            let d = choose|d: int| #[trigger]
                c3.dom().contains(d) && c3[d].used is None && d <= a < c3[d].acme;
            if d != c && d != end {
                assert(c0.dom().contains(d));
            }
        }
        assert forall|a: int| #[trigger] in_free(c2, a) implies in_free(c0, a) by {
            let d = choose|d: int| #[trigger]
                c2.dom().contains(d) && c2[d].used is None && d <= a < c2[d].acme;
            if d != c {
                assert(c0.dom().contains(d));
            }
        }
        assert(in_free(c0, u.ptr - 8));
        assert(in_free(c0, t));
        assert forall|a: int|
            !(llists <= a < llists + 1024) && !in_free(c0, a) && a != e implies #[trigger] m4[a]
            == m0[a] by {
            assert(m1[a] == m0[a]);
            assert(m2[a] == m1[a]);
            assert(m3[a] == m2[a]);
        }
        assert(frame_but(m0, m4, llists, c0, e, e));
        // the way to the tag
        assert(c4.dom().contains(t));
        if u.ptr - 8 != t {
            lemma_not_in_free(c4, t);
            assert forall|a: int| #[trigger] in_free(c3, a) implies in_free(c4, a) by {
                let d = choose|d: int| #[trigger]
                    c3.dom().contains(d) && c3[d].used is None && d <= a < c3[d].acme;
                assert(c4.dom().contains(d));
            }
            assert(!in_free(c3, u.ptr - 8));
            assert(m3[u.ptr - 8] == m2[u.ptr - 8]);
        }
        assert(ends_free(c4, t) == (t != c)) by {
            if t != c {
                assert(c4.dom().contains(c));
            } else if ends_free(c4, t) {
                let d = choose|d: int| #[trigger]
                    c4.dom().contains(d) && c4[d].used is None && c4[d].acme == t;
                assert(c0.dom().contains(d));
                assert(is_free(c0, d));
                assert(lone(c0, d));
            }
        }
        assert(tag_ok(m4, c4, t));
        // what stands above
        assert(ends_free(c4, e) == (end != e)) by {
            if end != e {
                assert(c4.dom().contains(end));
            } else if ends_free(c4, e) {
                let d = choose|d: int| #[trigger]
                    c4.dom().contains(d) && c4[d].used is None && c4[d].acme == e;
                assert(chunk_fits(lo, hi, d, c4[d]));
            }
        }
        assert(ends_free(c0, e));
        if e < hi {
            assert(c0.dom().contains(e));
            assert(c4.dom().contains(e));
            assert(chunk_fits(lo, hi, e, c0[e]));
            assert(c0[e].used is Some);
            assert(tag_ok(m0, c0, e));
            lemma_not_in_free(c0, e);
            let v = c0[e].used->0;
            assert(m4[v.ptr - 8] == m0[v.ptr - 8] || v.ptr - 8 == e);
            assert(tag_ok(m4, c4, e));
        } else {
            assert(!c4.dom().contains(e));
            assert(!in_free(c0, e));
        }
        if ends_free(c0, c) {
            let d = choose|d: int| #[trigger]
                c0.dom().contains(d) && c0[d].used is None && c0[d].acme == c;
            assert(is_free(c0, d));
            assert(lone(c0, d));
        }
        assert forall|b: int| #[trigger] c4.dom().contains(b) && c <= b < e implies c4[b].acme <= e
            && followed(c4, hi, b) && tag_ok(m4, c4, b) by {
            assert(b == c || b == t || b == end);
        }
        assert forall|b: int| #[trigger] is_free(c4, b) && c <= b < e implies lone(c4, b) by {
            assert(b == c || b == end);
        }
        assert(same_outside(c0, c4, c, e));
        Self::lemma_replace(s0, after, c, e, e);
        Self::lemma_kept(s0, after, c0, e, e);
    }

    /// Meets a request from the free chunk that `Heap::fit` tells, if there is one.
    pub(crate) fn allocate_fit(&mut self, layout: Layout) -> (allocation: Option<u64>)
        requires
            old(self).wf(),
            layout.valid(),
            layout.size() > 0,
        ensures
            final(self).wf(),
            allocation is Some <==> old(self).heap().fit(layout) is Some,
            allocation is None ==> *final(self) == *old(self),
            allocation matches Some(ptr) ==> {
                let b = old(self).heap().fit(layout)->0;
                &&& is_free(old(self).chunks@, b)
                &&& old(self).heap().has_room(b, layout)
                &&& ptr == alloc_ptr(b, layout)
                &&& final(self).heap() == old(self).heap().allocate(b, layout)
            },
            final(self).bins() == old(self).bins(),
            final(self).handler() == old(self).handler(),
            kept(
                old(self).heap(),
                old(self).words(),
                final(self).heap(),
                final(self).words(),
                old(self).bins(),
            ),
    {
        let ghost s0 = *self;
        proof {
            self.lemma_laid_out();
        }
        let (free_chunk_ptr, free_chunk_acme, alloc_ptr) = match self.get_sufficient_chunk(layout) {
            Some(payload) => payload,
            None => return None,
        };
        let ghost s1 = *self;
        let ghost c = free_chunk_ptr as int;
        let ghost e = free_chunk_acme as int;
        let ghost u = Use { ptr: alloc_ptr as int, layout };
        proof {
            assert(chunk_fits(s0.alloc_base as int, s0.alloc_acme as int, c, s0.chunks@[c]));
            lemma_room(c, e, layout);
            s0.lemma_limbo(s1, c);
        }
        let (tag_ptr, is_low_free) = self.carve_below(free_chunk_ptr, free_chunk_acme, alloc_ptr);
        let ghost s2 = *self;
        let req_end: u64 = align_up(alloc_ptr + layout.size());
        // a chunk has a least size
        let req_acme: u64 = if req_end < tag_ptr + MIN_CHUNK_SIZE {
            tag_ptr + MIN_CHUNK_SIZE
        } else {
            req_end
        };
        proof {
            s2.lemma_laid_out();
            assert(same_outside(s0.chunks@, s2.chunks@, c, e));
            Self::lemma_tag_above(s0, s1, s2, c, alloc_ptr - 8);
            assert forall|b: int| #[trigger] s2.chunks@.dom().contains(b) implies s2.chunks@[b].acme
                <= tag_ptr || e <= b by {
                assert(b == c || s1.chunks@.dom().contains(b));
            }
        }
        let acme: u64 = self.carve_above(req_acme, free_chunk_acme);
        let ghost s3 = *self;
        self.seal(tag_ptr, acme, is_low_free, Ghost(u));
        proof {
            Self::lemma_allocated(s0, s1, s2, s3, *self, c, e, tag_ptr as int, acme as int, u);
        }
        Some(alloc_ptr)
    }

    /// While a free chunk at `c` is being carved, the tag above it stays.
    proof fn lemma_tag_above(s0: Self, s1: Self, s2: Self, c: int, pre: int)
        requires
            s0.wf(),
            is_free(s0.chunks@, c),
            frame(s0.memory.words(), s1.memory.words(), s0.llists as int, s0.chunks@),
            frame_but(
                s1.memory.words(),
                s2.memory.words(),
                s0.llists as int,
                s2.chunks@,
                pre,
                pre,
            ),
            pre < s0.chunks@[c].acme,
            s2.laid_out(),
            same_outside(s0.chunks@, s2.chunks@, c, s0.chunks@[c].acme),
        ensures
            s0.chunks@[c].acme < s0.alloc_acme ==> {
                let e = s0.chunks@[c].acme;
                &&& s0.chunks@.dom().contains(e)
                &&& s2.chunks@.dom().contains(e)
                &&& s2.chunks@[e] == s0.chunks@[e]
                &&& s0.chunks@[e].used is Some
                &&& s2.memory.words()[e] == tag_word(s0.chunks@[e].acme, true)
            },
    {
        let c0 = s0.chunks@;
        let e = c0[c].acme;
        s0.lemma_laid_out();
        assert(lone(c0, c));
        assert(followed(c0, s0.alloc_acme as int, c));
        assert(c0.dom().contains(c));
        if e < s0.alloc_acme {
            assert(c0.dom().contains(e));
            assert(ends_free(c0, e));
            assert(tag_ok(s0.memory.words(), c0, e));
            assert(s2.chunks@.dom().contains(e));
            lemma_not_in_free(c0, e);
            lemma_not_in_free(s2.chunks@, e);
            assert(chunk_fits(s0.alloc_base as int, s0.alloc_acme as int, e, c0[e]));
        }
    }
}

impl<M: Memory, H: OomHandler<M>> Talloc<M, H> {
    /// Allocates memory for a request, if possible. If no free chunk has room, the
    /// handler decides whether to try again.
    pub fn malloc(&mut self, layout: Layout) -> (allocation: Result<u64, AllocError>)
        requires
            old(self).wf(),
            layout.valid(),
            layout.size() > 0,
        ensures
            final(self).wf(),
            served(*old(self), layout, *final(self), allocation),
            spared(*old(self), *final(self)),
            old(self).heap().fit(layout) matches Some(b) ==> {
                &&& allocation == Ok::<u64, AllocError>(alloc_ptr(b, layout) as u64)
                &&& final(self).heap() == old(self).heap().allocate(b, layout)
                &&& final(self).bins() == old(self).bins()
                &&& final(self).handler() == old(self).handler()
                &&& kept(
                    old(self).heap(),
                    old(self).words(),
                    final(self).heap(),
                    final(self).words(),
                    old(self).bins(),
                )
                &&& forall|other: int, held: Layout| #[trigger]
                    old(self).heap().allocated(other, held) ==> other != alloc_ptr(b, layout)
                        && same_allocation(*old(self), *final(self), other, held)
            },
            allocation matches Ok(ptr) ==> {
                &&& final(self).heap().allocated(ptr as int, layout)
                &&& forall|other: int, held: Layout| #[trigger]
                    old(self).heap().allocated(other, held) && !H::may_free(*old(self), other)
                        ==> other != ptr
            },
    {
        let ghost mut tried: Seq<Self> = seq![*self];
        loop
            invariant
                self.wf(),
                layout.valid(),
                layout.size() > 0,
                tried.len() > 0,
                tried[0] == *old(self),
                tried.last() == *self,
                tried.len() > 1 ==> tried[0].heap().fit(layout) is None,
                forall|i: int| 0 <= i < tried.len() ==> (#[trigger] tried[i]).wf(),
                forall|i: int|
                    0 <= i < tried.len() - 1 ==> (#[trigger] tried[i]).heap().fit(layout) is None
                        && H::handled(tried[i], layout, tried[i + 1], Ok(())),
                spared(*old(self), *self),
                forall|ptr: int, held: Layout| #[trigger]
                    old(self).heap().allocated(ptr, held) && !H::may_free(*old(self), ptr)
                        ==> !H::may_free(*self, ptr),
            decreases H::patience(*self, layout),
        {
            let ghost before = *self;
            if let Some(ptr) = self.allocate_fit(layout) {
                proof {
                    let answer = Ok::<u64, AllocError>(ptr);
                    lemma_allocate_spares(before, *self, layout, before.heap().fit(layout)->0);
                    assert(served_through(tried, layout, *self, answer));
                }
                return Ok(ptr);
            }
            match H::handle(self, layout) {
                Ok(unit) => {
                    proof {
                        assert(unit == ());
                        assert(before.heap().fit(layout) is None);
                        assert(H::handled(before, layout, *self, Ok(())));
                        let tried2 = tried.push(*self);
                        assert forall|i: int| 0 <= i < tried2.len() - 1 implies (
                        #[trigger] tried2[i]).heap().fit(layout) is None && H::handled(
                            tried2[i],
                            layout,
                            tried2[i + 1],
                            Ok(()),
                        ) by {
                            assert(tried2[i] == tried[i]);
                            if i < tried.len() - 1 {
                                assert(tried2[i + 1] == tried[i + 1]);
                            } else {
                                assert(tried2[i] == before);
                                assert(tried2[i + 1] == *self);
                            }
                        }
                        assert forall|i: int| 0 <= i < tried2.len() implies (
                        #[trigger] tried2[i]).wf() by {
                            if i < tried.len() {
                                assert(tried2[i] == tried[i]);
                            }
                        }
                        tried = tried2;
                    }
                },
                Err(error) => {
                    proof {
                        let answer = Err::<u64, AllocError>(error);
                        assert(served_through(tried, layout, *self, answer));
                    }
                    return Err(error);
                },
            }
        }
    }
}

/// Meeting a request leaves the other allocations alone.
pub(crate) proof fn lemma_allocate_spares<M: Memory, H>(
    before: Talloc<M, H>,
    after: Talloc<M, H>,
    layout: Layout,
    c: int,
)
    requires
        before.wf(),
        after.wf(),
        layout.valid(),
        layout.size() > 0,
        is_free(before.chunks@, c),
        before.heap().has_room(c, layout),
        after.heap() == before.heap().allocate(c, layout),
        kept(before.heap(), before.words(), after.heap(), after.words(), before.bins()),
    ensures
        forall|ptr: int, held: Layout| #[trigger]
            before.heap().allocated(ptr, held) ==> same_allocation(before, after, ptr, held) && ptr
                != alloc_ptr(c, layout),
        after.heap().allocated(alloc_ptr(c, layout), layout),
{
    before.lemma_laid_out();
    after.lemma_laid_out();
    let c0 = before.chunks@;
    let c4 = after.chunks@;
    let e = c0[c].acme;
    let t = reserve_from(c, e, alloc_ptr(c, layout));
    assert(c4.dom().contains(t));
    assert(chunk_fits(before.alloc_base as int, before.alloc_acme as int, c, c0[c]));
    lemma_room(c, e, layout);
    assert forall|ptr: int, held: Layout| #[trigger]
        before.heap().allocated(ptr, held) implies same_allocation(before, after, ptr, held) && ptr
        != alloc_ptr(c, layout) by {
        let b = choose|b: int| #[trigger]
            c0.dom().contains(b) && c0[b].used == Some(Use { ptr, layout: held });
        assert(chunk_fits(before.alloc_base as int, before.alloc_acme as int, b, c0[b]));
        assert(b < c || e <= b);
        let end = reserve_to(required_acme(t, alloc_ptr(c, layout), layout.size() as int), e);
        assert(b != t && b != c && (end != e ==> b != end));
        assert(c4.dom().contains(b) && c4[b] == c0[b]);
    }
}

} // verus!
