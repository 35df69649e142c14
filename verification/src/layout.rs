use vstd::arithmetic::power2::is_pow2;
use vstd::prelude::*;

verus! {

/// A request for memory: how many bytes, and to what their address is aligned.
#[derive(Clone, Copy, Debug, PartialEq, Eq, Structural)]
pub struct Layout {
    pub(crate) size: u64,
    pub(crate) align: u64,
}

/// The size or the alignment is none that a layout can have.
#[derive(Clone, Copy, Debug, PartialEq, Eq, Structural)]
pub struct LayoutError;

/// The greatest size that an object can have.
pub const MAX_SIZE: u64 = 0x7fff_ffff_ffff_ffff;

/// Halving `n`, as long as it is even, ends at 1 exactly if no two of its bits are set.
proof fn lemma_one_bit(n: u64)
    requires
        n > 0,
    ensures
        is_pow2(n as int) <==> n & ((n - 1) as u64) == 0,
    decreases n,
{
    reveal_with_fuel(is_pow2, 2);
    let m: u64 = (n - 1) as u64;
    if n == 1 {
        assert(1u64 & 0u64 == 0) by (bit_vector);
    } else if n % 2 == 1 {
        assert(n & m != 0) by (bit_vector)
            requires
                n % 2 == 1,
                n > 1,
                m == n - 1,
        ;
    } else {
        let h: u64 = n / 2;
        let k: u64 = (h - 1) as u64;
        assert((n & m == 0) == (h & k == 0)) by (bit_vector)
            requires
                n % 2 == 0,
                n > 1,
                m == n - 1,
                h == n / 2,
                k == h - 1,
        ;
        lemma_one_bit(h);
    }
}

impl Layout {
    pub open(crate) spec fn spec_size(&self) -> u64 {
        self.size
    }

    pub open(crate) spec fn spec_align(&self) -> u64 {
        self.align
    }

    /// The layout of `size` bytes, aligned to `align`.
    pub open(crate) spec fn of(size: u64, align: u64) -> Layout {
        Layout { size, align }
    }

    /// What every layout keeps: the alignment is a power of two, and the size,
    /// rounded up to it, is one that an object can have.
    pub open spec fn valid_parts(size: int, align: int) -> bool {
        &&& is_pow2(align)
        &&& 0 < align
        &&& size + align - 1 <= MAX_SIZE
    }

    pub open spec fn valid(self) -> bool {
        Self::valid_parts(self.spec_size() as int, self.spec_align() as int)
    }

    pub fn from_size_align(size: u64, align: u64) -> (layout: Result<Layout, LayoutError>)
        ensures
            layout is Ok <==> Self::valid_parts(size as int, align as int),
            layout is Ok ==> layout->Ok_0 == Layout::of(size, align) && layout->Ok_0.valid()
                && layout->Ok_0.spec_size() == size && layout->Ok_0.spec_align() == align,
            layout is Err ==> layout->Err_0 == LayoutError,
    {
        if align == 0 {
            return Err(LayoutError);
        }
        proof {
            lemma_one_bit(align);
        }
        if align & (align - 1) != 0 {
            return Err(LayoutError);
        }
        if align - 1 > MAX_SIZE || size > MAX_SIZE - (align - 1) {
            return Err(LayoutError);
        }
        Ok(Layout { size, align })
    }

    /// A layout of the given parts, which must be those of a layout.
    pub(crate) fn from_valid_parts(size: u64, align: u64) -> (layout: Layout)
        requires
            Self::valid_parts(size as int, align as int),
        ensures
            layout == Layout::of(size, align),
            layout.valid(),
    {
        Layout { size, align }
    }

    #[verifier::when_used_as_spec(spec_size)]
    pub fn size(&self) -> (size: u64)
        ensures
            size == self.spec_size(),
    {
        self.size
    }

    #[verifier::when_used_as_spec(spec_align)]
    pub fn align(&self) -> (align: u64)
        ensures
            align == self.spec_align(),
    {
        self.align
    }
}

} // verus!
