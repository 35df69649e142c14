use crate::layout::Layout;
use crate::memory::{copied, Memory};
use crate::model::alloc_ptr;
use crate::talloc::{kept, Talloc};
use vstd::prelude::*;

verus! {

/// The request could not be met.
#[derive(Clone, Copy, Debug, PartialEq, Eq, Structural)]
pub struct AllocError;

impl AllocError {
    /// What the error says.
    pub fn message(self) -> (text: &'static str)
        ensures
            text@ == "memory allocation failed"@,
    {
        "memory allocation failed"
    }
}

/// What an allocator calls when no free chunk has room for a request. The answer
/// `Ok` has the allocator try again; an error becomes the answer to the request.
pub trait OomHandler<M: Memory>: Sized {
    /// What the handler may do: from the first state to the second, with an answer.
    /// Anything, unless more is said.
    open spec fn handled(
        before: Talloc<M, Self>,
        layout: Layout,
        after: Talloc<M, Self>,
        answer: Result<(), AllocError>,
    ) -> bool {
        true
    }

    /// A bound on how many times the handler will yet have the allocator try again.
    /// Unless something else is said, it does so only when it has made the arena longer.
    open spec fn patience(talloc: Talloc<M, Self>, layout: Layout) -> nat {
        (0x1_0000_0000_0000_0000 - talloc.heap().arena.length()) as nat
    }

    /// Whether the handler may free the allocation at `ptr`. It may not, unless
    /// something else is said.
    open spec fn may_free(talloc: Talloc<M, Self>, ptr: int) -> bool {
        false
    }

    /// Makes room in the allocator, or gives up.
    fn handle(talloc: &mut Talloc<M, Self>, layout: Layout) -> (answer: Result<(), AllocError>)
        requires
            old(talloc).wf(),
            layout.valid(),
            layout.size() > 0,
            old(talloc).heap().fit(layout) is None,
        ensures
            final(talloc).wf(),
            Self::handled(*old(talloc), layout, *final(talloc), answer),
            answer is Ok ==> Self::patience(*final(talloc), layout) < Self::patience(
                *old(talloc),
                layout,
            ),
            forall|ptr: int, held: Layout| #[trigger]
                old(talloc).heap().allocated(ptr, held) && !Self::may_free(*old(talloc), ptr)
                    ==> same_allocation(*old(talloc), *final(talloc), ptr, held)
                    && !Self::may_free(*final(talloc), ptr),
    ;
}

/// The allocation at `ptr` is live in both states, and holds the same.
pub open spec fn same_allocation<M: Memory, H>(
    before: Talloc<M, H>,
    after: Talloc<M, H>,
    ptr: int,
    layout: Layout,
) -> bool {
    &&& after.heap().allocated(ptr, layout)
    &&& forall|a: int|
        ptr <= a < ptr + layout.size() ==> #[trigger] after.words()[a] == before.words()[a]
}

/// Every allocation that the handler may not free is live in both states, and holds
/// the same.
pub open spec fn spared<M: Memory, H: OomHandler<M>>(
    before: Talloc<M, H>,
    after: Talloc<M, H>,
) -> bool {
    forall|ptr: int, layout: Layout| #[trigger]
        before.heap().allocated(ptr, layout) && !H::may_free(before, ptr) ==> same_allocation(
            before,
            after,
            ptr,
            layout,
        )
}

/// The answer to a request for which the allocator went through the states `tried`,
/// the first of them the one it was called in: in none but the last did any free
/// chunk have room, and the handler led from each to the next.
pub open spec fn served_through<M: Memory, H: OomHandler<M>>(
    tried: Seq<Talloc<M, H>>,
    layout: Layout,
    after: Talloc<M, H>,
    answer: Result<u64, AllocError>,
) -> bool {
    &&& tried.len() > 0
    &&& forall|i: int| 0 <= i < tried.len() ==> (#[trigger] tried[i]).wf()
    &&& after.wf()
    &&& forall|i: int|
        0 <= i < tried.len() - 1 ==> (#[trigger] tried[i]).heap().fit(layout) is None && H::handled(
            tried[i],
            layout,
            tried[i + 1],
            Ok(()),
        )
    &&& match answer {
        Ok(ptr) => {
            &&& tried.last().heap().fit(layout) matches Some(b) && ptr == alloc_ptr(b, layout)
                && after.heap() == tried.last().heap().allocate(b, layout)
            &&& after.bins() == tried.last().bins()
            &&& after.handler() == tried.last().handler()
            &&& kept(
                tried.last().heap(),
                tried.last().words(),
                after.heap(),
                after.words(),
                after.bins(),
            )
            &&& after.heap().allocated(ptr as int, layout)
            &&& forall|other: int, held: Layout| #[trigger]
                tried.last().heap().allocated(other, held) ==> other != ptr && same_allocation(
                    tried.last(),
                    after,
                    other,
                    held,
                )
        },
        Err(error) => {
            &&& tried.last().heap().fit(layout) is None
            &&& H::handled(tried.last(), layout, after, Err(error))
        },
    }
}

/// The answer to a request, and the state it leaves.
pub open spec fn served<M: Memory, H: OomHandler<M>>(
    before: Talloc<M, H>,
    layout: Layout,
    after: Talloc<M, H>,
    answer: Result<u64, AllocError>,
) -> bool {
    exists|tried: Seq<Talloc<M, H>>|
        tried.len() > 0 && tried[0] == before && #[trigger] served_through(
            tried,
            layout,
            after,
            answer,
        )
}

/// How the allocation at `ptr`, made for `layout`, is moved to `new_ptr`: the request
/// for `new_layout` is served, which leads to `mid`, what the allocation holds is
/// copied, which makes memory `filled`, and then the allocation is freed.
pub open spec fn moved_through<M: Memory, H: OomHandler<M>>(
    before: Talloc<M, H>,
    ptr: int,
    layout: Layout,
    new_layout: Layout,
    mid: Talloc<M, H>,
    filled: Map<int, u64>,
    after: Talloc<M, H>,
    new_ptr: u64,
) -> bool {
    &&& served(before, new_layout, mid, Ok(new_ptr))
    &&& mid.wf()
    &&& same_allocation(before, mid, ptr, layout)
    &&& mid.heap().allocated(new_ptr as int, new_layout)
    &&& ptr != new_ptr
    &&& copied(mid.words(), filled, ptr, new_ptr as int, layout.size() as int)
    &&& after.heap() == mid.heap().freed(ptr)
    &&& after.bins() == mid.bins()
    &&& after.handler() == mid.handler()
    &&& kept(mid.heap(), filled, after.heap(), after.words(), mid.bins())
    &&& forall|other: int, held: Layout| #[trigger]
        mid.heap().allocated(other, held) && other != ptr && other != new_ptr ==> same_allocation(
            mid,
            after,
            other,
            held,
        )
}

/// The answer to a request to move the allocation at `ptr`, made for `layout`, to one
/// made for `new_layout`, and the state it leaves.
pub open spec fn moved<M: Memory, H: OomHandler<M>>(
    before: Talloc<M, H>,
    ptr: int,
    layout: Layout,
    new_layout: Layout,
    after: Talloc<M, H>,
    answer: Result<u64, AllocError>,
) -> bool {
    match answer {
        Ok(new_ptr) => exists|mid: Talloc<M, H>, filled: Map<int, u64>| #[trigger]
            moved_through(before, ptr, layout, new_layout, mid, filled, after, new_ptr),
        Err(_) => served(before, new_layout, after, answer),
    }
}

/// Gives up on a request.
pub fn alloc_error<M: Memory, H>(_talloc: &mut Talloc<M, H>, _layout: Layout) -> (answer: Result<
    (),
    AllocError,
>)
    ensures
        answer == Err::<(), AllocError>(AllocError),
        *final(_talloc) == *old(_talloc),
{
    Err(AllocError)
}

/// The handler that gives up on every request: `alloc_error`.
#[derive(Clone, Copy, Debug, PartialEq, Eq, Structural)]
pub struct GiveUp;

impl<M: Memory> OomHandler<M> for GiveUp {
    open spec fn handled(
        before: Talloc<M, Self>,
        layout: Layout,
        after: Talloc<M, Self>,
        answer: Result<(), AllocError>,
    ) -> bool {
        after == before && answer == Err::<(), AllocError>(AllocError)
    }

    open spec fn patience(talloc: Talloc<M, Self>, layout: Layout) -> nat {
        0
    }

    open spec fn may_free(talloc: Talloc<M, Self>, ptr: int) -> bool {
        false
    }

    fn handle(talloc: &mut Talloc<M, Self>, layout: Layout) -> (answer: Result<(), AllocError>) {
        alloc_error(talloc, layout)
    }
}

} // verus!
