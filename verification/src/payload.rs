use crate::layout::Layout;
use crate::memory::Memory;
use crate::model::in_payload;
use crate::talloc::{reaches, Talloc};
use vstd::prelude::*;

verus! {

impl<M: Memory, H> Talloc<M, H> {
    /// Every word of an allocation can be read and written, and is no one else's.
    proof fn lemma_word_of(&self, ptr: int, layout: Layout, offset: int)
        requires
            self.recorded(),
            self.heap().allocated(ptr, layout),
            0 <= offset < layout.size(),
            offset % 8 == 0,
        ensures
            self.words().dom().contains(ptr + offset),
            in_payload(self.chunks@, ptr + offset),
            ptr + offset <= u64::MAX,
    {
        self.lemma_laid_out();
        self.lemma_locate(ptr, layout);
        let b = self.heap().chunk_of(ptr);
        assert(reaches(
            self.memory.words().dom(),
            self.alloc_base as int,
            self.alloc_acme as int,
        ));
        assert((ptr + offset) % 8 == 0);
        assert(self.chunks@.dom().contains(b));
    }

    /// The word at `offset` of the allocation at `ptr`, which was made for `layout`.
    pub fn load(&self, ptr: u64, layout: Layout, offset: u64) -> (word: u64)
        requires
            self.wf(),
            self.heap().allocated(ptr as int, layout),
            offset < layout.size(),
            offset % 8 == 0,
        ensures
            word == self.words()[ptr + offset],
    {
        proof {
            self.lemma_word_of(ptr as int, layout, offset as int);
        }
        self.memory.read(ptr + offset)
    }

    /// Puts `word` at `offset` of the allocation at `ptr`, which was made for `layout`.
    pub fn store(&mut self, ptr: u64, layout: Layout, offset: u64, word: u64)
        requires
            old(self).wf(),
            old(self).heap().allocated(ptr as int, layout),
            offset < layout.size(),
            offset % 8 == 0,
        ensures
            final(self).wf(),
            final(self).heap() == old(self).heap(),
            final(self).bins() == old(self).bins(),
            final(self).handler() == old(self).handler(),
            final(self).words() == old(self).words().insert(ptr + offset, word),
    {
        let ghost s0 = *self;
        proof {
            self.lemma_word_of(ptr as int, layout, offset as int);
        }
        self.memory.write(ptr + offset, word);
        proof {
            assert(self.memory.words().dom() =~= s0.memory.words().dom());
            Self::lemma_payload(s0, *self);
        }
    }
}

} // verus!
