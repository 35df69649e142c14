use crate::word::{round_down, round_up, WORD_SIZE};
use vstd::prelude::*;

verus! {

/// A run of addresses, from `base` up to and without `acme`. Addresses are signed:
/// those of the upper half of the address space are below zero.
#[derive(Clone, Copy, Debug, PartialEq, Eq, Structural)]
pub enum Span {
    Empty,
    Sized { base: i64, acme: i64 },
}

/// The address that the signed number `at` stands for.
pub open spec fn address(at: i64) -> int {
    if at < 0 {
        at + 0x1_0000_0000_0000_0000
    } else {
        at as int
    }
}

/// The address that the signed number `at` stands for.
pub fn to_address(at: i64) -> (addr: u64)
    ensures
        addr == address(at),
{
    assert((at as u64) == if at < 0 {
        at + 0x1_0000_0000_0000_0000
    } else {
        at as int
    }) by (bit_vector);
    at as u64
}

/// The signed number that stands for the address `addr`.
pub open spec fn signed(addr: int) -> int {
    if addr < 0x8000_0000_0000_0000 {
        addr
    } else {
        addr - 0x1_0000_0000_0000_0000
    }
}

/// The signed number that stands for the address `addr`.
pub fn to_signed(addr: u64) -> (at: i64)
    ensures
        at == signed(addr as int),
        address(at) == addr,
{
    assert((addr as i64) == if addr > 0x7fff_ffff_ffff_ffff {
        addr - 0x1_0000_0000_0000_0000
    } else {
        addr as int
    }) by (bit_vector);
    addr as i64
}

/// The multiple of the word size at or below `at`.
fn word_align_down(at: i64) -> (down: i64)
    ensures
        down == round_down(at as int, 8),
{
    let down: i64 = at & !7i64;
    assert(down <= at && at - down <= 7 && down & 7i64 == 0i64) by (bit_vector)
        requires
            down == at & !7i64,
    ;
    assert(down & 7i64 == 0i64 ==> (down >> 3i64) * 8 == down) by (bit_vector);
    down
}

/// Between two addresses of the same half of the address space, the signed numbers
/// run as the addresses do.
pub proof fn lemma_signed(base: i64, acme: i64, addr: int)
    requires
        base < acme,
        address(base) < address(acme),
        address(base) <= addr <= address(acme),
    ensures
        signed(addr) == base + (addr - address(base)),
        base <= signed(addr) <= acme,
{
}

/// A run of words within an arena, as a span.
pub proof fn lemma_part(arena: Span, lo: int, hi: int)
    requires
        arena.inward() matches Span::Sized { base, acme } && address(base) < address(acme) && address(
            base,
        ) <= lo <= address(acme) && address(base) <= hi <= address(acme),
        lo % 8 == 0,
        hi % 8 == 0,
    ensures
        ({
            let part = Span::between(signed(lo), signed(hi));
            &&& match part {
                Span::Empty => hi <= lo,
                Span::Sized { base, acme } => base < acme && address(base) == lo && address(acme)
                    == hi && acme - base == hi - lo,
            }
            &&& part.inward() == part
            &&& arena.covers(part)
            &&& arena.inward().covers(part)
        }),
{
    let (base, acme) = (arena.inward()->base, arena.inward()->acme);
    lemma_signed(base, acme, lo);
    lemma_signed(base, acme, hi);
}

/// A span within another is so between word boundaries too.
pub proof fn lemma_inward_within(outer: Span, inner: Span)
    requires
        outer.covers(inner),
    ensures
        outer.inward().covers(inner.inward()),
{
}

/// The word-aligned part of a span lies in it, starts and ends at word boundaries,
/// and holds every other part that does so.
pub proof fn law_inward(span: Span, part: Span)
    requires
        span.covers(part),
        part matches Span::Sized { base, acme } ==> base < acme && base % 8 == 0 && acme % 8 == 0,
    ensures
        span.covers(span.inward()),
        span.inward() matches Span::Sized { base, acme } ==> base < acme && base % 8 == 0 && acme % 8
            == 0,
        span.inward().covers(part),
{
}

/// A span from one number up to another holds what lies between, and is empty if
/// nothing does.
pub proof fn law_between(base: i64, acme: i64, at: int)
    ensures
        Span::between(base as int, acme as int).has(at) <==> base <= at < acme,
        Span::between(base as int, acme as int) == Span::Empty <==> acme <= base,
{
}

/// A span lies in another exactly if the other holds all that it holds.
pub proof fn law_covers(outer: Span, base: i64, acme: i64)
    ensures
        outer.covers(Span::between(base as int, acme as int)) <==> forall|at: int|
            base <= at < acme ==> #[trigger] outer.has(at),
{
    let inner = Span::between(base as int, acme as int);
    if base < acme && (forall|at: int| base <= at < acme ==> #[trigger] outer.has(at)) {
        assert(outer.has(base as int));
        assert(outer.has(acme - 1));
    }
}

/// An address and the signed number that stands for it differ by a multiple of the size
/// of the address space.
pub proof fn law_signed(addr: u64)
    ensures
        i64::MIN <= signed(addr as int) <= i64::MAX,
        (signed(addr as int) - addr) % 0x1_0000_0000_0000_0000 == 0,
        address(signed(addr as int) as i64) == addr,
{
}

impl Span {
    /// Whether an address lies in the span.
    pub open spec fn has(self, at: int) -> bool {
        self matches Span::Sized { base, acme } && base <= at < acme
    }

    /// The number of addresses in the span.
    pub open spec fn length(self) -> int {
        match self {
            Span::Empty => 0,
            Span::Sized { base, acme } => acme - base,
        }
    }

    /// The span from `base` up to `acme`.
    pub open spec fn between(base: int, acme: int) -> Span {
        if base < acme {
            Span::Sized { base: base as i64, acme: acme as i64 }
        } else {
            Span::Empty
        }
    }

    /// The span between the outermost word boundaries in this one.
    pub open spec fn inward(self) -> Span {
        match self {
            Span::Empty => Span::Empty,
            Span::Sized { base, acme } => Span::between(
                round_up(base as int, 8),
                round_down(acme as int, 8),
            ),
        }
    }

    /// Whether all of `other` lies in this span.
    pub open spec fn covers(self, other: Span) -> bool {
        match other {
            Span::Empty => true,
            Span::Sized { base: low, acme: high } => self matches Span::Sized { base, acme } && base
                <= low && high <= acme,
        }
    }

    /// The span from `base` up to `acme`; empty unless `base` is below `acme`.
    pub fn new(base: i64, acme: i64) -> (span: Span)
        ensures
            span == Span::between(base as int, acme as int),
    {
        if base < acme {
            Span::Sized { base, acme }
        } else {
            Span::Empty
        }
    }

    /// Whether `at` lies in the span.
    pub fn contains(self, at: i64) -> (inside: bool)
        ensures
            inside == self.has(at as int),
    {
        match self {
            Span::Empty => false,
            Span::Sized { base, acme } => base <= at && at < acme,
        }
    }

    /// Whether all of `other` lies in the span.
    pub fn contains_span(self, other: Span) -> (inside: bool)
        ensures
            inside == self.covers(other),
    {
        match other {
            Span::Empty => true,
            Span::Sized { base: low, acme: high } => match self {
                Span::Empty => false,
                Span::Sized { base, acme } => base <= low && high <= acme,
            },
        }
    }

    /// The span between the outermost word boundaries in this one.
    pub fn word_align_inward(self) -> (span: Span)
        ensures
            span == self.inward(),
    {
        match self {
            Span::Empty => Span::Empty,
            Span::Sized { base, acme } => {
                if base > i64::MAX - (WORD_SIZE as i64 - 1) {
                    return Span::Empty;
                }
                Span::new(word_align_down(base + (WORD_SIZE as i64 - 1)), word_align_down(acme))
            },
        }
    }
}

} // verus!
