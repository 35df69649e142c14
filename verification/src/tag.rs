use crate::memory::Memory;
use vstd::prelude::*;

verus! {

/// The word that a reserved chunk starts with. It holds the chunk's acme (the
/// address just above the chunk), a flag that is always set, which tells it from
/// the word that a free chunk starts with, and a flag that says whether the chunk
/// just below is free.
#[derive(Clone, Copy)]
pub struct Tag(pub u64);

/// The flag that tells a tag from a pointer to a word.
pub const ALLOCATED_FLAG: u64 = 1;

/// The flag that says that the chunk just below is free.
pub const IS_LOW_FREE_FLAG: u64 = 2;

/// The bits that hold the acme.
pub const ACME_MASK: u64 = 0xffff_ffff_ffff_fffc;

/// The tag of a chunk that ends at `acme`.
pub open spec fn tag_word(acme: int, is_low_free: bool) -> int {
    acme + 1 + if is_low_free {
        2int
    } else {
        0
    }
}

/// A tag with the flag of a free chunk below set to `flag`.
pub open spec fn flag_low_free(word: u64, flag: bool) -> u64 {
    let is_set: bool = word / 2 % 2 == 1;
    if is_set == flag {
        word
    } else if flag {
        (word + 2) as u64
    } else {
        (word - 2) as u64
    }
}

/// The parts of a tag.
pub proof fn lemma_tag_word(word: u64, acme: int, is_low_free: bool)
    requires
        word == tag_word(acme, is_low_free),
        acme % 8 == 0,
    ensures
        word % 2 == 1,
        word - word % 4 == acme,
        (word / 2 % 2 == 1) == is_low_free,
        flag_low_free(word, true) == tag_word(acme, true),
        flag_low_free(word, false) == tag_word(acme, false),
        word % 4 == tag_word(0, is_low_free),
{
}

impl Tag {
    /// Whether this is the tag of a chunk that ends at `acme`.
    pub open spec fn says(self, acme: int, is_low_free: bool) -> bool {
        self.0 == tag_word(acme, is_low_free)
    }

    pub fn new(acme: u64, is_low_free: bool) -> (tag: Tag)
        requires
            acme % 8 == 0,
        ensures
            tag.says(acme as int, is_low_free),
    {
        assert(acme | 1u64 == acme + 1 && (acme | 1u64) | 2u64 == acme + 3) by (bit_vector)
            requires
                acme % 8 == 0,
        ;
        let tagged: u64 = acme | ALLOCATED_FLAG;
        if is_low_free {
            Tag(tagged | IS_LOW_FREE_FLAG)
        } else {
            Tag(tagged)
        }
    }

    /// The address just above the chunk.
    pub fn acme_ptr(self) -> (acme: u64)
        ensures
            acme == self.0 - self.0 % 4,
    {
        let word = self.0;
        assert(word & 0xffff_ffff_ffff_fffcu64 == word - word % 4) by (bit_vector);
        self.0 & ACME_MASK
    }

    pub fn is_allocated(self) -> (flag: bool)
        ensures
            flag == (self.0 % 2 == 1),
    {
        let word = self.0;
        assert(word & 1u64 == word % 2) by (bit_vector);
        self.0 & ALLOCATED_FLAG != 0
    }

    pub fn is_low_free(self) -> (flag: bool)
        ensures
            flag == (self.0 / 2 % 2 == 1),
    {
        let word = self.0;
        assert((word & 2u64 != 0) == (word / 2 % 2 == 1)) by (bit_vector);
        self.0 & IS_LOW_FREE_FLAG != 0
    }

    /// This tag for a chunk that ends at `acme`; the flags stay.
    fn with_acme(self, acme: u64) -> (tag: Tag)
        requires
            acme % 8 == 0,
        ensures
            tag.0 == acme + self.0 % 4,
    {
        let word = self.0;
        assert(acme | (word & !0xffff_ffff_ffff_fffcu64) == acme + word % 4) by (bit_vector)
            requires
                acme % 8 == 0,
        ;
        Tag(acme | (self.0 & !ACME_MASK))
    }

    /// This tag with the flag of a free chunk below set.
    fn with_low_free(self) -> (tag: Tag)
        ensures
            tag.0 == flag_low_free(self.0, true),
    {
        let word = self.0;
        assert(word | 2u64 == if word / 2 % 2 == 1 {
            word as int
        } else {
            word + 2
        }) by (bit_vector);
        Tag(self.0 | IS_LOW_FREE_FLAG)
    }

    /// This tag with the flag of a free chunk below cleared.
    fn without_low_free(self) -> (tag: Tag)
        ensures
            tag.0 == flag_low_free(self.0, false),
    {
        let word = self.0;
        assert(word & !2u64 == if word / 2 % 2 == 1 {
            word - 2
        } else {
            word as int
        }) by (bit_vector);
        Tag(self.0 & !IS_LOW_FREE_FLAG)
    }

    /// Makes the tag at `ptr` that of a chunk that ends at `acme`; the flags stay.
    pub fn set_acme<M: Memory>(memory: &mut M, ptr: u64, acme: u64)
        requires
            old(memory).words().dom().contains(ptr as int),
            acme % 8 == 0,
        ensures
            final(memory).words() == old(memory).words().insert(
                ptr as int,
                (acme + old(memory).words()[ptr as int] % 4) as u64,
            ),
            acme + old(memory).words()[ptr as int] % 4 <= u64::MAX,
    {
        let tag = Tag(memory.read(ptr)).with_acme(acme);
        memory.write(ptr, tag.0);
    }

    /// Sets the flag of a free chunk below in the tag at `ptr`.
    pub fn set_low_free<M: Memory>(memory: &mut M, ptr: u64)
        requires
            old(memory).words().dom().contains(ptr as int),
        ensures
            final(memory).words() == old(memory).words().insert(
                ptr as int,
                flag_low_free(old(memory).words()[ptr as int], true),
            ),
    {
        let tag = Tag(memory.read(ptr)).with_low_free();
        memory.write(ptr, tag.0);
    }

    /// Clears the flag of a free chunk below in the tag at `ptr`.
    pub fn clear_low_free<M: Memory>(memory: &mut M, ptr: u64)
        requires
            old(memory).words().dom().contains(ptr as int),
        ensures
            final(memory).words() == old(memory).words().insert(
                ptr as int,
                flag_low_free(old(memory).words()[ptr as int], false),
            ),
    {
        let tag = Tag(memory.read(ptr)).without_low_free();
        memory.write(ptr, tag.0);
    }
}

} // verus!
