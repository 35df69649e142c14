use crate::memory::Memory;
use crate::model::ends_free;
use crate::span::Span;
use crate::talloc::{available, Talloc};
use vstd::prelude::*;

verus! {

/// What an allocator holds outside the memory it manages.
#[derive(Clone, Copy, Debug, PartialEq, Eq)]
pub struct Summary {
    pub arena: Span,
    pub alloc_base: u64,
    pub alloc_acme: u64,
    pub is_top_free: bool,
    pub availability_low: u64,
    pub availability_high: u64,
}

impl<M: Memory, H> Talloc<M, H> {
    /// What the allocator holds outside the memory it manages, for those who debug it.
    pub fn summary(&self) -> (summary: Summary)
        requires
            self.wf(),
        ensures
            summary.arena == self.heap().arena,
            summary.alloc_base == self.heap().base,
            summary.alloc_acme == self.heap().acme,
            summary.is_top_free == self.top_free(),
            self.heap().base < self.heap().acme ==> summary.is_top_free == ends_free(
                self.heap().chunks,
                self.heap().acme,
            ),
            forall|g: int|
                0 <= g < 128 ==> (#[trigger] available(
                    summary.availability_low,
                    summary.availability_high,
                    g,
                ) <==> self.heap().lists[g].len() > 0),
    {
        proof {
            reveal(Talloc::recorded);
        }
        Summary {
            arena: self.arena,
            alloc_base: self.alloc_base,
            alloc_acme: self.alloc_acme,
            is_top_free: self.is_top_free,
            availability_low: self.availability_low,
            availability_high: self.availability_high,
        }
    }
}

} // verus!
