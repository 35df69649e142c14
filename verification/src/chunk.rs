use crate::memory::Memory;
use crate::tag::Tag;
use crate::word::{align_down, round_down, NODE_SIZE, TAG_SIZE};
use vstd::prelude::*;

verus! {

/// The address of a free chunk.
#[derive(Clone, Copy)]
pub struct FreeChunk(pub u64);

impl FreeChunk {
    /// Where the chunk starts.
    pub fn ptr(self) -> (ptr: u64)
        ensures
            ptr == self.0,
    {
        self.0
    }

    /// Where the chunk's node stands.
    pub fn node_ptr(self) -> (ptr: u64)
        ensures
            ptr == self.0,
    {
        self.0
    }

    /// Where the lower of the two words with the chunk's size stands.
    pub fn size_ptr(self) -> (ptr: u64)
        requires
            self.0 + 16 <= u64::MAX,
        ensures
            ptr == self.0 + 16,
    {
        self.0 + NODE_SIZE
    }
}

/// The chunk above another one.
pub enum HighChunk {
    Free(FreeChunk),
    Full(u64),
}

impl HighChunk {
    /// What the chunk at `ptr` is: a reserved one starts with a tag, whose lowest
    /// bit is set, and a free one with an address that is a multiple of the word
    /// size.
    pub fn from_ptr<M: Memory>(memory: &M, ptr: u64) -> (chunk: HighChunk)
        requires
            memory.words().dom().contains(ptr as int),
        ensures
            chunk == if memory.words()[ptr as int] % 2 == 1 {
                HighChunk::Full(ptr)
            } else {
                HighChunk::Free(FreeChunk(ptr))
            },
    {
        if Tag(memory.read(ptr)).is_allocated() {
            HighChunk::Full(ptr)
        } else {
            HighChunk::Free(FreeChunk(ptr))
        }
    }
}

/// Where the tag of an allocation stands: in the word below the allocation, or at
/// the address that this word holds.
pub open spec fn tag_ptr_of(m: Map<int, u64>, ptr: int) -> int {
    let low: int = round_down(ptr - TAG_SIZE, 8);
    if m[low] % 2 == 1 {
        low
    } else {
        m[low] as int
    }
}

/// Finds the chunk that the allocation at `ptr` is in, and its tag.
pub fn chunk_ptr_from_alloc_ptr<M: Memory>(memory: &M, ptr: u64) -> (found: (u64, Tag))
    requires
        ptr >= TAG_SIZE,
        memory.words().dom().contains(round_down(ptr - TAG_SIZE, 8)),
        memory.words().dom().contains(tag_ptr_of(memory.words(), ptr as int)),
    ensures
        found.0 == tag_ptr_of(memory.words(), ptr as int),
        found.1.0 == memory.words()[tag_ptr_of(memory.words(), ptr as int)],
{
    let low_ptr: u64 = align_down(ptr - TAG_SIZE);
    let data: u64 = memory.read(low_ptr);
    let tag = Tag(data);
    if tag.is_allocated() {
        (low_ptr, tag)
    } else {
        (data, Tag(memory.read(data)))
    }
}

} // verus!
