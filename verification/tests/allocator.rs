use std::cell::RefCell;
use std::rc::Rc;

use talloc::{
    alloc_error, g_of_size, AllocError, GiveUp, Layout, LayoutError, Memory, OomHandler, Span, Tag,
    Talloc, WordMemory,
};

const BINS: u64 = 0x1000;
const BASE: u64 = 0x1400;

fn layout(size: u64, align: u64) -> Layout {
    Layout::from_size_align(size, align).unwrap()
}

fn span(base: u64, acme: u64) -> Span {
    Span::new(base as i64, acme as i64)
}

/// An allocator on memory of `words` words above the bucket words.
fn fresh(words: usize) -> Talloc<WordMemory, GiveUp> {
    Talloc::new(WordMemory::new(BINS, 128 + words), BINS)
}

/// An allocator with an arena of `bytes` bytes, and as much memory above it.
fn heap(bytes: u64) -> Talloc<WordMemory, GiveUp> {
    let mut talloc = fresh(bytes as usize / 4);
    talloc.init(span(BASE, BASE + bytes));
    talloc
}

fn fill<H>(talloc: &mut Talloc<WordMemory, H>, ptr: u64, layout: Layout, byte: u8) {
    let word = u64::from_ne_bytes([byte; 8]);
    let mut offset = 0;
    while offset < layout.size() {
        talloc.store(ptr, layout, offset, word);
        offset += 8;
    }
}

#[test]
fn it_works() {
    const ARENA_SIZE: usize = 10000000;

    let base = 0x10000;
    let memory = WordMemory::new(base, 128 + ARENA_SIZE / 8);
    let mut talloc = Talloc::new(memory, base);
    talloc.init(span(base + 1024, base + 1024 + ARENA_SIZE as u64));

    let layout = Layout::from_size_align(1243, 8).unwrap();

    let a = talloc.malloc(layout);
    assert!(a.is_ok());
    fill(&mut talloc, a.unwrap(), layout, 255);

    let mut x = vec![0; 1000];

    let t1 = std::time::Instant::now();
    for _ in 0..1000 {
        for i in 0..1000 {
            let allocation = talloc.malloc(layout);
            assert!(allocation.is_ok());
            fill(&mut talloc, allocation.unwrap(), layout, 0xab);
            x[i] = allocation.unwrap();
        }

        for i in 0..500 {
            talloc.free(x[i], layout);
        }
        for i in (500..1000).rev() {
            talloc.free(x[i], layout);
        }
    }
    let t2 = std::time::Instant::now();
    println!("duration: {:?}", (t2 - t1) / (1000 * 2000));

    assert_eq!(talloc.load(a.unwrap(), layout, 1240), u64::MAX);
    talloc.free(a.unwrap(), layout);
    assert_eq!(talloc.get_allocated_span(), Span::Empty);
}

#[test]
fn buckets_of_sizes() {
    assert_eq!(g_of_size(24), 0);
    assert_eq!(g_of_size(31), 0);
    assert_eq!(g_of_size(32), 1);
    assert_eq!(g_of_size(248), 28);
    assert_eq!(g_of_size(256), 29);
    assert_eq!(g_of_size(264), 29);
    assert_eq!(g_of_size(272), 30);
    assert_eq!(g_of_size(496), 44);
    assert_eq!(g_of_size(512), 45);
    assert_eq!(g_of_size(640), 46);
    assert_eq!(g_of_size(1023), 48);
    assert_eq!(g_of_size(1024), 49);
    assert_eq!(g_of_size(1 << 29), 125);
    assert_eq!(g_of_size((1 << 29) + (1 << 28)), 127);
    assert_eq!(g_of_size(1 << 30), 127);
    assert_eq!(g_of_size(u64::MAX), 127);
}

#[test]
fn buckets_do_not_fall() {
    let mut last = 0;
    for size in 24..20000 {
        let g = g_of_size(size);
        assert!(last <= g && g < 128);
        last = g;
    }
}

#[test]
fn layouts() {
    let l = layout(100, 16);
    assert_eq!((l.size(), l.align()), (100, 16));
    assert_eq!(Layout::from_size_align(8, 0), Err(LayoutError));
    assert_eq!(Layout::from_size_align(8, 12), Err(LayoutError));
    assert_eq!(Layout::from_size_align(i64::MAX as u64, 2), Err(LayoutError));
    assert!(Layout::from_size_align(i64::MAX as u64, 1).is_ok());
    assert!(Layout::from_size_align(0, 1).is_ok());
}

#[test]
fn spans() {
    assert_eq!(Span::new(5, 5), Span::Empty);
    assert_eq!(Span::new(6, 5), Span::Empty);
    let s = Span::new(-3, 13);
    assert_eq!(s, Span::Sized { base: -3, acme: 13 });
    assert!(s.contains(-3) && s.contains(0) && s.contains(12));
    assert!(!s.contains(13) && !s.contains(-4));
    assert!(!Span::Empty.contains(0));
    assert!(s.contains_span(Span::new(0, 13)));
    assert!(!s.contains_span(Span::new(0, 14)));
    assert!(s.contains_span(Span::Empty));
    assert!(Span::Empty.contains_span(Span::Empty));
    assert!(!Span::Empty.contains_span(s));
    assert_eq!(s.word_align_inward(), Span::new(0, 8));
    assert_eq!(Span::new(-9, 17).word_align_inward(), Span::new(-8, 16));
    assert_eq!(Span::new(1, 15).word_align_inward(), Span::Empty);
    assert_eq!(Span::new(i64::MAX - 3, i64::MAX).word_align_inward(), Span::Empty);
    assert_eq!(Span::Empty.word_align_inward(), Span::Empty);
}

#[test]
fn tags() {
    let tag = Tag::new(0x1470, false);
    assert!(tag.is_allocated() && !tag.is_low_free());
    assert_eq!(tag.acme_ptr(), 0x1470);
    assert_eq!(tag.0, 0x1471);
    let tag = Tag::new(0x1470, true);
    assert!(tag.is_allocated() && tag.is_low_free());
    assert_eq!(tag.acme_ptr(), 0x1470);

    let mut memory = WordMemory::new(0x1000, 4);
    memory.write(0x1008, tag.0);
    Tag::clear_low_free(&mut memory, 0x1008);
    assert_eq!(memory.read(0x1008), Tag::new(0x1470, false).0);
    Tag::set_low_free(&mut memory, 0x1008);
    Tag::set_acme(&mut memory, 0x1008, 0x1500);
    assert_eq!(memory.read(0x1008), Tag::new(0x1500, true).0);
    assert_eq!(memory.read(0x1000), 0);
}

#[test]
fn no_arena_no_memory() {
    let mut talloc = fresh(100);
    assert_eq!(talloc.get_arena(), Span::Empty);
    assert_eq!(talloc.get_allocatable_span(), Span::Empty);
    assert_eq!(talloc.get_allocated_span(), Span::Empty);
    assert_eq!(talloc.malloc(layout(1, 1)), Err(AllocError));
    assert_eq!(AllocError.message(), "memory allocation failed");
    assert_eq!(alloc_error(&mut talloc, layout(1, 1)), Err(AllocError));
    assert_eq!(talloc.scan_for_errors(), Some(vec![]));
}

#[test]
fn small_arena_has_no_heap() {
    let mut talloc = fresh(100);
    talloc.init(span(BASE + 1, BASE + 31));
    assert_eq!(talloc.get_arena(), span(BASE + 1, BASE + 31));
    assert_eq!(talloc.get_allocatable_span(), Span::Empty);
    assert_eq!(talloc.malloc(layout(1, 1)), Err(AllocError));
    talloc.init(span(BASE + 1, BASE + 32));
    assert_eq!(talloc.get_allocatable_span(), span(BASE + 8, BASE + 32));
    assert_eq!(talloc.malloc(layout(16, 8)), Ok(BASE + 16));
}

#[test]
fn chunks_are_carved_from_the_bottom() {
    let mut talloc = heap(1000);
    assert_eq!(talloc.scan_for_errors(), Some(vec![(BASE, BASE + 1000)]));
    assert_eq!(talloc.malloc(layout(100, 8)), Ok(0x1408));
    assert_eq!(talloc.scan_for_errors(), Some(vec![(0x1470, BASE + 1000)]));
    assert_eq!(talloc.malloc(layout(10, 1)), Ok(0x1478));
    assert_eq!(talloc.scan_for_errors(), Some(vec![(0x1488, BASE + 1000)]));
    assert_eq!(talloc.get_allocated_span(), span(BASE, 0x1488));
}

#[test]
fn the_least_bucket_with_room_is_used() {
    let mut talloc = heap(1000);
    talloc.malloc(layout(100, 8)).unwrap();
    talloc.malloc(layout(10, 1)).unwrap();
    talloc.free(0x1408, layout(100, 8));
    assert_eq!(
        talloc.scan_for_errors(),
        Some(vec![(0x1400, 0x1470), (0x1488, BASE + 1000)])
    );
    assert_eq!(talloc.malloc(layout(200, 8)), Ok(0x1490));
    assert_eq!(talloc.malloc(layout(100, 8)), Ok(0x1408));
}

#[test]
fn freeing_undoes_allocating() {
    let mut talloc = heap(1000);
    talloc.malloc(layout(50, 8)).unwrap();
    let before = talloc.scan_for_errors();
    for align in [1, 2, 8, 16, 32, 64, 128] {
        for size in [1, 16, 17, 100, 300] {
            let ptr = talloc.malloc(layout(size, align)).unwrap();
            assert_eq!(ptr % align, 0);
            assert_ne!(talloc.scan_for_errors(), before);
            talloc.free(ptr, layout(size, align));
            assert_eq!(talloc.scan_for_errors(), before);
        }
    }
}

#[test]
fn alignment() {
    let mut talloc = heap(1000);
    // a chunk of the least size fits below the tag
    assert_eq!(talloc.malloc(layout(8, 32)), Ok(0x1420));
    assert_eq!(
        talloc.scan_for_errors(),
        Some(vec![(0x1400, 0x1418), (0x1430, BASE + 1000)])
    );
    talloc.free(0x1420, layout(8, 32));
    assert_eq!(talloc.scan_for_errors(), Some(vec![(BASE, BASE + 1000)]));
    // too little is left below the tag, so the tag stands further down
    assert_eq!(talloc.malloc(layout(8, 16)), Ok(0x1410));
    assert_eq!(talloc.scan_for_errors(), Some(vec![(0x1418, BASE + 1000)]));
    talloc.free(0x1410, layout(8, 16));
    assert_eq!(talloc.malloc(layout(8, 64)), Ok(0x1440));
    assert_eq!(
        talloc.scan_for_errors(),
        Some(vec![(0x1400, 0x1438), (0x1450, BASE + 1000)])
    );
    // no address with this alignment has room behind it
    assert_eq!(talloc.malloc(layout(8, 1 << 20)), Err(AllocError));
    assert_eq!(talloc.malloc(layout(8, 1 << 62)), Err(AllocError));
}

#[test]
fn a_chunk_at_the_end_of_the_free_one() {
    let mut talloc = fresh(100);
    talloc.init(span(BASE, 0x1448));
    // the tag would stand too high for a whole chunk
    assert_eq!(talloc.malloc(layout(8, 64)), Ok(0x1440));
    assert_eq!(talloc.scan_for_errors(), Some(vec![(0x1400, 0x1430)]));
    talloc.free(0x1440, layout(8, 64));
    assert_eq!(talloc.scan_for_errors(), Some(vec![(0x1400, 0x1448)]));
}

#[test]
fn exhaustion() {
    let mut talloc = heap(96);
    let l = layout(16, 8);
    let ptrs: Vec<u64> = (0..4).map(|_| talloc.malloc(l).unwrap()).collect();
    assert_eq!(ptrs, vec![0x1408, 0x1420, 0x1438, 0x1450]);
    assert_eq!(talloc.malloc(l), Err(AllocError));
    assert_eq!(talloc.scan_for_errors(), Some(vec![]));
    talloc.free(ptrs[1], l);
    talloc.free(ptrs[3], l);
    // chunks that were freed last come first in their bucket
    assert_eq!(
        talloc.scan_for_errors(),
        Some(vec![(0x1448, 0x1460), (0x1418, 0x1430)])
    );
    assert_eq!(talloc.malloc(l), Ok(ptrs[3]));
    assert_eq!(talloc.malloc(l), Ok(ptrs[1]));
    assert_eq!(talloc.malloc(l), Err(AllocError));
}

#[test]
fn free_chunks_join() {
    let mut talloc = heap(1000);
    let l = layout(100, 8);
    let ptrs: Vec<u64> = (0..5).map(|_| talloc.malloc(l).unwrap()).collect();
    talloc.free(ptrs[0], l);
    talloc.free(ptrs[2], l);
    talloc.free(ptrs[1], l);
    assert_eq!(
        talloc.scan_for_errors(),
        Some(vec![(0x1400, 0x1550), (0x1630, BASE + 1000)])
    );
    talloc.free(ptrs[4], l);
    talloc.free(ptrs[3], l);
    assert_eq!(talloc.scan_for_errors(), Some(vec![(BASE, BASE + 1000)]));
    assert_eq!(talloc.get_allocated_span(), Span::Empty);
}

#[test]
fn allocations_keep_apart() {
    let mut talloc = heap(4000);
    let mut held: Vec<(u64, Layout)> = Vec::new();
    for i in 0..20u64 {
        let l = layout(10 + 13 * i, 1 << (i % 7));
        let ptr = talloc.malloc(l).unwrap();
        fill(&mut talloc, ptr, l, i as u8);
        held.push((ptr, l));
        if i % 3 == 2 {
            let (ptr, l) = held.remove(held.len() / 2);
            talloc.free(ptr, l);
        }
    }
    for (n, &(p, l)) in held.iter().enumerate() {
        for &(q, k) in &held[n + 1..] {
            assert!(p + l.size() <= q || q + k.size() <= p);
        }
        let i = (l.size() - 10) / 13;
        for offset in (0..l.size()).step_by(8) {
            assert_eq!(talloc.load(p, l, offset), i * 0x0101_0101_0101_0101);
        }
    }
    assert!(talloc.scan_for_errors().is_some());
}

#[test]
fn growing_within_the_chunk() {
    let mut talloc = heap(1000);
    let ptr = talloc.malloc(layout(100, 8)).unwrap();
    assert_eq!(talloc.grow(ptr, layout(100, 8), 104), Ok(ptr));
    assert_eq!(talloc.scan_for_errors(), Some(vec![(0x1470, BASE + 1000)]));
    assert_eq!(talloc.grow(ptr, layout(104, 8), 104), Ok(ptr));
    talloc.free(ptr, layout(104, 8));
    assert_eq!(talloc.scan_for_errors(), Some(vec![(BASE, BASE + 1000)]));
}

#[test]
fn growing_into_the_chunk_above() {
    let mut talloc = heap(1000);
    let ptr = talloc.malloc(layout(100, 8)).unwrap();
    fill(&mut talloc, ptr, layout(100, 8), 7);
    assert_eq!(talloc.grow(ptr, layout(100, 8), 200), Ok(ptr));
    assert_eq!(talloc.scan_for_errors(), Some(vec![(0x14d0, BASE + 1000)]));
    assert_eq!(talloc.load(ptr, layout(200, 8), 96), 0x0707_0707_0707_0707);
    // what is left above is too little for a chunk
    assert_eq!(talloc.grow(ptr, layout(200, 8), 970), Ok(ptr));
    assert_eq!(talloc.scan_for_errors(), Some(vec![]));
    talloc.free(ptr, layout(970, 8));
    assert_eq!(talloc.scan_for_errors(), Some(vec![(BASE, BASE + 1000)]));
}

#[test]
fn growing_elsewhere() {
    let mut talloc = heap(1000);
    let a = talloc.malloc(layout(100, 8)).unwrap();
    let b = talloc.malloc(layout(16, 8)).unwrap();
    for offset in (0..100).step_by(8) {
        talloc.store(a, layout(100, 8), offset, 1000 + offset);
    }
    talloc.store(b, layout(16, 8), 8, 42);
    assert_eq!(talloc.grow(a, layout(100, 8), 200), Ok(0x1490));
    for offset in (0..100).step_by(8) {
        assert_eq!(talloc.load(0x1490, layout(200, 8), offset), 1000 + offset);
    }
    assert_eq!(talloc.load(b, layout(16, 8), 8), 42);
    assert_eq!(
        talloc.scan_for_errors(),
        Some(vec![(0x1400, 0x1470), (0x1558, BASE + 1000)])
    );
}

#[test]
fn growing_too_far() {
    let mut talloc = heap(1000);
    let ptr = talloc.malloc(layout(100, 8)).unwrap();
    talloc.store(ptr, layout(100, 8), 0, 11);
    let before = talloc.scan_for_errors();
    assert_eq!(talloc.grow(ptr, layout(100, 8), 5000), Err(AllocError));
    assert_eq!(talloc.grow(ptr, layout(100, 8), i64::MAX as u64 - 7), Err(AllocError));
    assert_eq!(talloc.scan_for_errors(), before);
    assert_eq!(talloc.load(ptr, layout(100, 8), 0), 11);
}

#[test]
fn shrinking() {
    let mut talloc = heap(1000);
    let ptr = talloc.malloc(layout(200, 8)).unwrap();
    fill(&mut talloc, ptr, layout(200, 8), 9);
    talloc.shrink(ptr, layout(200, 8), 50);
    assert_eq!(talloc.scan_for_errors(), Some(vec![(0x1440, BASE + 1000)]));
    assert_eq!(talloc.load(ptr, layout(50, 8), 40), 0x0909_0909_0909_0909);
    // too little would be gained
    talloc.shrink(ptr, layout(50, 8), 40);
    assert_eq!(talloc.scan_for_errors(), Some(vec![(0x1440, BASE + 1000)]));
    let above = talloc.malloc(layout(900, 8)).unwrap();
    talloc.shrink(above, layout(900, 8), 1);
    assert_eq!(talloc.scan_for_errors(), Some(vec![(0x1458, BASE + 1000)]));
    let top = talloc.malloc(layout(904, 8)).unwrap();
    assert_eq!(top, 0x1460);
    talloc.shrink(ptr, layout(40, 8), 8);
    assert_eq!(talloc.get_allocated_span(), span(BASE, BASE + 1000));
    assert_eq!(talloc.scan_for_errors(), Some(vec![(0x1418, 0x1440)]));
    talloc.free(top, layout(904, 8));
    talloc.free(above, layout(1, 8));
    talloc.free(ptr, layout(8, 8));
    assert_eq!(talloc.scan_for_errors(), Some(vec![(BASE, BASE + 1000)]));
}

#[test]
fn extending_above() {
    let mut talloc = heap(1000);
    talloc.extend(span(BASE, BASE + 1200));
    assert_eq!(talloc.scan_for_errors(), Some(vec![(BASE, BASE + 1200)]));
    let ptr = talloc.malloc(layout(1192, 8)).unwrap();
    talloc.store(ptr, layout(1192, 8), 1184, 5);
    // no more than the least chunk is left out
    talloc.extend(span(BASE, BASE + 1224));
    assert_eq!(talloc.get_arena(), span(BASE, BASE + 1224));
    assert_eq!(talloc.get_allocatable_span(), span(BASE, BASE + 1200));
    talloc.extend(span(BASE, BASE + 1232));
    assert_eq!(talloc.get_allocatable_span(), span(BASE, BASE + 1232));
    assert_eq!(
        talloc.scan_for_errors(),
        Some(vec![(BASE + 1200, BASE + 1232)])
    );
    assert_eq!(talloc.load(ptr, layout(1192, 8), 1184), 5);
    talloc.free(ptr, layout(1192, 8));
    assert_eq!(talloc.scan_for_errors(), Some(vec![(BASE, BASE + 1232)]));
}

#[test]
fn extending_below() {
    let mut talloc = fresh(200);
    talloc.init(span(BASE + 400, BASE + 600));
    talloc.extend(span(BASE + 300, BASE + 600));
    assert_eq!(talloc.scan_for_errors(), Some(vec![(BASE + 304, BASE + 600)]));
    let ptr = talloc.malloc(layout(100, 8)).unwrap();
    talloc.extend(span(BASE + 280, BASE + 600));
    assert_eq!(talloc.get_allocatable_span(), span(BASE + 304, BASE + 600));
    talloc.extend(span(BASE, BASE + 600));
    assert_eq!(
        talloc.scan_for_errors(),
        Some(vec![(BASE + 416, BASE + 600), (BASE, BASE + 304)])
    );
    talloc.free(ptr, layout(100, 8));
    assert_eq!(talloc.scan_for_errors(), Some(vec![(BASE, BASE + 600)]));
}

#[test]
fn extending_nothing() {
    let mut talloc = fresh(100);
    talloc.extend(span(BASE, BASE + 20));
    assert_eq!(talloc.get_allocatable_span(), Span::Empty);
    talloc.extend(span(BASE, BASE + 100));
    assert_eq!(talloc.get_allocatable_span(), span(BASE, BASE + 96));
    assert_eq!(talloc.malloc(layout(80, 8)), Ok(BASE + 8));
}

#[test]
fn truncating_above() {
    let mut talloc = heap(1000);
    let ptr = talloc.malloc(layout(100, 8)).unwrap();
    talloc.truncate(span(BASE, 0x1500));
    assert_eq!(talloc.scan_for_errors(), Some(vec![(0x1470, 0x1500)]));
    // what is left is too little for a chunk
    talloc.truncate(span(BASE, 0x1480));
    assert_eq!(talloc.get_arena(), span(BASE, 0x1480));
    assert_eq!(talloc.get_allocatable_span(), span(BASE, 0x1470));
    assert_eq!(talloc.malloc(layout(1, 1)), Err(AllocError));
    talloc.free(ptr, layout(100, 8));
    assert_eq!(talloc.scan_for_errors(), Some(vec![(BASE, 0x1470)]));
}

#[test]
fn truncating_below() {
    let mut talloc = heap(1000);
    let l = layout(100, 8);
    let a = talloc.malloc(l).unwrap();
    let b = talloc.malloc(l).unwrap();
    talloc.store(b, l, 0, 3);
    talloc.free(a, l);
    talloc.truncate(span(0x1420, BASE + 1000));
    assert_eq!(
        talloc.scan_for_errors(),
        Some(vec![(0x1420, 0x1470), (0x14e0, BASE + 1000)])
    );
    talloc.truncate(span(0x1460, BASE + 1000));
    assert_eq!(talloc.get_allocatable_span(), span(0x1470, BASE + 1000));
    assert_eq!(talloc.scan_for_errors(), Some(vec![(0x14e0, BASE + 1000)]));
    assert_eq!(talloc.load(b, l, 0), 3);
    talloc.free(b, l);
    assert_eq!(talloc.scan_for_errors(), Some(vec![(0x1470, BASE + 1000)]));
}

#[test]
fn truncating_to_what_is_allocated() {
    let mut talloc = heap(1000);
    let l = layout(100, 8);
    let a = talloc.malloc(l).unwrap();
    let b = talloc.malloc(l).unwrap();
    talloc.free(a, l);
    let allocated = talloc.get_allocated_span();
    assert_eq!(allocated, span(0x1470, 0x14e0));
    talloc.truncate(allocated);
    assert_eq!(talloc.get_arena(), allocated);
    assert_eq!(talloc.get_allocatable_span(), allocated);
    assert_eq!(talloc.malloc(layout(1, 1)), Err(AllocError));
    talloc.truncate(allocated);
    assert_eq!(talloc.get_allocatable_span(), allocated);
    talloc.free(b, l);
    assert_eq!(talloc.malloc(l), Ok(b));
}

#[test]
fn truncating_to_nothing() {
    let mut talloc = heap(1000);
    talloc.truncate(Span::Empty);
    assert_eq!(talloc.get_arena(), Span::Empty);
    assert_eq!(talloc.get_allocatable_span(), Span::Empty);
    assert_eq!(talloc.malloc(layout(1, 1)), Err(AllocError));
    let mut talloc = heap(1000);
    talloc.truncate(span(BASE + 8, BASE + 24));
    assert_eq!(talloc.get_allocatable_span(), Span::Empty);
    talloc.truncate(span(BASE + 8, BASE + 16));
    assert_eq!(talloc.get_arena(), span(BASE + 8, BASE + 16));
    talloc.extend(span(BASE, BASE + 1000));
    assert_eq!(talloc.scan_for_errors(), Some(vec![(BASE, BASE + 1000)]));
}

#[test]
fn truncating_to_the_rim() {
    let mut talloc = heap(1000);
    let ptr = talloc.malloc(layout(992, 8)).unwrap();
    talloc.extend(span(BASE, BASE + 1024));
    assert_eq!(talloc.get_allocatable_span(), span(BASE, BASE + 1000));
    talloc.free(ptr, layout(992, 8));
    talloc.truncate(span(BASE + 992, BASE + 1024));
    assert_eq!(talloc.get_allocatable_span(), Span::Empty);
    assert_eq!(talloc.malloc(layout(1, 1)), Err(AllocError));
    assert_eq!(talloc.scan_for_errors(), Some(vec![]));
    talloc.extend(span(BASE, BASE + 1024));
    assert_eq!(talloc.scan_for_errors(), Some(vec![(BASE, BASE + 1024)]));
}

#[test]
fn initializing_again() {
    let mut talloc = heap(1000);
    talloc.malloc(layout(100, 8)).unwrap();
    talloc.init(span(BASE + 80, BASE + 400));
    assert_eq!(talloc.get_arena(), span(BASE + 80, BASE + 400));
    assert_eq!(talloc.get_allocated_span(), Span::Empty);
    assert_eq!(talloc.scan_for_errors(), Some(vec![(BASE + 80, BASE + 400)]));
}

#[test]
fn moving() {
    let mut talloc = Talloc::new(WordMemory::new(0x1000, 1000), 0x1000);
    talloc.init(span(0x1800, 0x1c00));
    let l = layout(40, 8);
    let ptrs: Vec<u64> = (0..6).map(|_| talloc.malloc(l).unwrap()).collect();
    for &ptr in &ptrs {
        talloc.store(ptr, l, 32, ptr);
    }
    talloc.free(ptrs[1], l);
    talloc.free(ptrs[3], l);
    let free = talloc.scan_for_errors();
    let mut talloc = talloc.mov(0x1400);
    assert_eq!(talloc.scan_for_errors(), free);
    assert_eq!(talloc.get_arena(), span(0x1800, 0x1c00));
    assert_eq!(talloc.load(ptrs[4], l, 32), ptrs[4]);
    // the chunks come out of their lists at the new place
    assert_eq!(talloc.malloc(l), Ok(ptrs[3]));
    assert_eq!(talloc.malloc(l), Ok(ptrs[1]));
    for &ptr in &ptrs {
        talloc.free(ptr, l);
    }
    assert_eq!(talloc.scan_for_errors(), Some(vec![(0x1800, 0x1c00)]));
}

#[test]
fn locking() {
    let lock = heap(1000).spin_lock();
    let l = layout(100, 8);
    let ptr = lock.0.lock().malloc(l).unwrap();
    assert_eq!(ptr, 0x1408);
    let mut talloc = lock.0.lock();
    assert!(lock.0.try_lock().is_none());
    talloc.store(ptr, l, 8, 77);
    assert_eq!(talloc.load(ptr, l, 8), 77);
    talloc.free(ptr, l);
    assert_eq!(talloc.scan_for_errors(), Some(vec![(BASE, BASE + 1000)]));
}

/// Extends the arena by as much as is asked for, up to an arena of 1000 bytes.
struct Extend;

impl OomHandler<WordMemory> for Extend {
    fn handle(talloc: &mut Talloc<WordMemory, Self>, layout: Layout) -> Result<(), AllocError> {
        let (base, acme) = match talloc.get_arena() {
            Span::Empty => (BASE as i64, BASE as i64),
            Span::Sized { base, acme } => (base, acme),
        };
        let end = acme + layout.size() as i64;
        if end - base > 1000 {
            return Err(AllocError);
        }
        talloc.extend(Span::new(base, end));
        Ok(())
    }
}

#[test]
fn the_handler_makes_room() {
    let memory = WordMemory::new(BINS, 128 + 200);
    let mut talloc = Talloc::with_oom_handler(memory, BINS, Extend);
    let l = layout(96, 8);
    // the first extension is too small for the tag, so there is a second one
    assert_eq!(talloc.malloc(l), Ok(BASE + 8));
    assert_eq!(talloc.get_arena(), span(BASE, BASE + 192));
    assert_eq!(talloc.malloc(l), Ok(BASE + 112));
    assert_eq!(talloc.get_arena(), span(BASE, BASE + 288));
    assert_eq!(talloc.malloc(layout(2000, 8)), Err(AllocError));
    assert_eq!(talloc.grow(BASE + 8, l, 300), Ok(BASE + 216));
    assert!(talloc.scan_for_errors().is_some());
}

/// Memory that others can write too.
#[derive(Clone)]
struct Shared(Rc<RefCell<Vec<u64>>>);

impl Memory for Shared {
    fn has(&self, addr: u64) -> bool {
        addr >= BINS && addr % 8 == 0 && (addr - BINS) / 8 < self.0.borrow().len() as u64
    }

    fn read(&self, addr: u64) -> u64 {
        self.0.borrow()[(addr - BINS) as usize / 8]
    }

    fn write(&mut self, addr: u64, word: u64) {
        self.0.borrow_mut()[(addr - BINS) as usize / 8] = word;
    }
}

#[test]
fn a_scan_finds_what_was_overwritten() {
    let mut memory = Shared(Rc::new(RefCell::new(vec![0; 400])));
    let mut talloc = Talloc::new(memory.clone(), BINS);
    talloc.init(span(BASE, BASE + 1000));
    let l = layout(100, 8);
    let a = talloc.malloc(l).unwrap();
    let b = talloc.malloc(l).unwrap();
    talloc.free(a, l);
    let free = talloc.scan_for_errors();
    assert_eq!(free, Some(vec![(0x1400, 0x1470), (0x14e0, BASE + 1000)]));
    // the next node, the two sizes, the tag above, a bucket word
    for addr in [0x1400, 0x1410, 0x1468, 0x1470, BINS + 88, BINS] {
        let word = memory.read(addr);
        for wrong in [8, 0x14e0, 0x1401] {
            memory.write(addr, wrong);
            assert_eq!(talloc.scan_for_errors(), None);
        }
        memory.write(addr, word);
        assert_eq!(talloc.scan_for_errors(), free);
    }
    // what the allocations hold does not matter
    memory.write(b, 123);
    assert_eq!(talloc.scan_for_errors(), free);
}

#[test]
fn sizes_in_a_bucket() {
    for size in (24..256).step_by(8) {
        assert_ne!(g_of_size(size), g_of_size(size + 8));
    }
    for size in (256..512).step_by(16) {
        assert_eq!(g_of_size(size), g_of_size(size + 15));
        assert_ne!(g_of_size(size), g_of_size(size + 16));
    }
    for log2 in 9..29 {
        let quarter = (1 << log2) / 4;
        for n in 4..8 {
            let size = n * quarter;
            assert_eq!(g_of_size(size), g_of_size(size + quarter - 1));
            assert_ne!(g_of_size(size), g_of_size(size + quarter));
        }
    }
}

#[test]
fn what_was_freed_fits_again() {
    let mut talloc = heap(1000);
    let mut held: Vec<(u64, Layout)> = Vec::new();
    for i in 0..6u64 {
        let l = layout(20 + 17 * i, 1 << i);
        held.push((talloc.malloc(l).unwrap(), l));
    }
    while talloc.malloc(layout(8, 8)).is_ok() {}
    for (ptr, l) in held {
        assert_eq!(talloc.malloc(l), Err(AllocError));
        talloc.free(ptr, l);
        assert!(talloc.malloc(l).is_ok());
    }
}

#[test]
fn a_cut_allocation_gets_its_size_back() {
    for (size, new_size) in [(300, 299), (300, 280), (300, 8), (40, 20), (16, 1)] {
        let mut talloc = heap(1000);
        let ptr = talloc.malloc(layout(size, 8)).unwrap();
        talloc.malloc(layout(100, 8)).unwrap();
        talloc.shrink(ptr, layout(size, 8), new_size);
        assert_eq!(talloc.grow(ptr, layout(new_size, 8), size), Ok(ptr));
        assert!(talloc.scan_for_errors().is_some());
    }
}

#[test]
fn summaries() {
    let mut talloc = heap(1000);
    let summary = talloc.summary();
    assert_eq!(summary.arena, span(BASE, BASE + 1000));
    assert_eq!((summary.alloc_base, summary.alloc_acme), (BASE, BASE + 1000));
    assert!(summary.is_top_free);
    // 1000 bytes are in bucket 48
    assert_eq!((summary.availability_low, summary.availability_high), (1 << 48, 0));
    let a = talloc.malloc(layout(100, 8)).unwrap();
    talloc.malloc(layout(880, 8)).unwrap();
    talloc.free(a, layout(100, 8));
    let summary = talloc.summary();
    assert!(!summary.is_top_free);
    assert_eq!((summary.availability_low, summary.availability_high), (1 << 11, 0));
}

#[test]
fn one_free_chunk_when_all_is_freed() {
    let mut talloc = heap(4000);
    let sizes = [5, 100, 24, 700, 61, 8, 333];
    let mut held: Vec<(u64, Layout)> = Vec::new();
    for (i, &size) in sizes.iter().enumerate() {
        let l = layout(size, 1 << i);
        held.push((talloc.malloc(l).unwrap(), l));
    }
    for i in [3, 0, 6, 2, 5, 1, 4] {
        let (ptr, l) = held[i];
        talloc.free(ptr, l);
        assert!(talloc.scan_for_errors().is_some());
    }
    assert_eq!(talloc.scan_for_errors(), Some(vec![(BASE, BASE + 4000)]));
}

#[test]
fn the_mark_of_a_free_top() {
    // an allocator that was never given an arena
    let talloc = fresh(300);
    let summary = talloc.summary();
    assert_eq!(summary.arena, Span::Empty);
    assert_eq!((summary.alloc_base, summary.alloc_acme), (0, 0));
    assert!(summary.is_top_free);
    assert_eq!((summary.availability_low, summary.availability_high), (0, 0));
    let memory = WordMemory::new(BINS, 128);
    assert_eq!(Talloc::with_oom_handler(memory, BINS, Extend).summary(), summary);
    let mut talloc = talloc.mov(0x1800);
    assert!(talloc.summary().is_top_free);
    // one whose arena is too small
    talloc.init(span(BASE, BASE + 16));
    assert!(!talloc.summary().is_top_free);
    talloc.extend(span(BASE, BASE + 20));
    assert!(!talloc.summary().is_top_free);
    talloc.extend(span(BASE, BASE + 100));
    assert!(talloc.summary().is_top_free);
    talloc.truncate(Span::Empty);
    assert!(!talloc.summary().is_top_free);
    let talloc = talloc.mov(BINS);
    assert!(!talloc.summary().is_top_free);
}

#[test]
fn truncating_undoes_extending() {
    let mut talloc = fresh(200);
    let arena = span(BASE + 400, BASE + 800);
    talloc.init(arena);
    let a = talloc.malloc(layout(100, 8)).unwrap();
    let b = talloc.malloc(layout(100, 8)).unwrap();
    let mut holds = vec![talloc.scan_for_errors()];
    talloc.extend(span(BASE, BASE + 1200));
    assert_ne!(talloc.scan_for_errors(), holds[0]);
    talloc.truncate(arena);
    assert_eq!(talloc.scan_for_errors(), holds[0]);
    talloc.free(a, layout(100, 8));
    holds.push(talloc.scan_for_errors());
    talloc.extend(span(BASE, BASE + 1200));
    talloc.truncate(arena);
    assert_eq!(talloc.scan_for_errors(), holds[1]);
    talloc.free(b, layout(100, 8));
    talloc.extend(span(BASE, BASE + 1200));
    talloc.truncate(arena);
    assert_eq!(talloc.scan_for_errors(), Some(vec![(BASE + 400, BASE + 800)]));
}

#[test]
fn every_bucket_has_a_size() {
    let mut seen = vec![false; 128];
    let mut size = 24;
    while size <= 1 << 30 {
        seen[g_of_size(size) as usize] = true;
        size += if size < 512 { 8 } else { size / 8 };
    }
    assert!(seen.iter().all(|&s| s));
}

#[test]
fn doubled_sizes() {
    for size in (512..100000).step_by(56) {
        assert_eq!(g_of_size(2 * size), g_of_size(size) + 4);
    }
    assert_eq!(g_of_size(1 << 28), 121);
    assert_eq!(g_of_size(1 << 29), 125);
    assert_eq!(g_of_size(1 << 30), 127);
}

#[test]
fn a_moved_allocation_leaves_its_region_free() {
    let mut talloc = heap(1000);
    let l = layout(100, 8);
    let a = talloc.malloc(l).unwrap();
    let b = talloc.malloc(l).unwrap();
    fill(&mut talloc, b, l, 5);
    let c = talloc.grow(a, l, 300).unwrap();
    assert_ne!(c, a);
    assert_eq!(talloc.malloc(l), Ok(a));
    assert_eq!(talloc.load(b, l, 96), 0x0505_0505_0505_0505);
}

#[test]
fn a_scan_follows_the_lists_wherever_they_lead() {
    let mut memory = Shared(Rc::new(RefCell::new(vec![0; 400])));
    let mut talloc = Talloc::new(memory.clone(), BINS);
    talloc.init(span(BASE + 400, BASE + 1000));
    // a node below the heap, whose chunk is in order
    memory.write(BASE + 400, BASE);
    memory.write(BASE + 16, 24);
    memory.write(BASE + 24, Tag::new(BASE + 400, true).0);
    let free = Some(vec![(BASE + 400, BASE + 1000), (BASE, BASE + 24)]);
    assert_eq!(talloc.scan_for_errors(), free);
    memory.write(BASE + 24, Tag::new(BASE + 400, false).0);
    assert_eq!(talloc.scan_for_errors(), None);
    // a node that follows itself
    memory.write(BASE + 400, BASE + 400);
    assert_eq!(talloc.scan_for_errors(), None);
}

#[test]
fn growing_elsewhere_copies_no_more_than_the_old_size() {
    let mut talloc = heap(1000);
    let l = layout(100, 8);
    let a = talloc.malloc(l).unwrap();
    talloc.malloc(layout(16, 8)).unwrap();
    let c = talloc.malloc(layout(300, 8)).unwrap();
    fill(&mut talloc, a, l, 0x11);
    fill(&mut talloc, c, layout(300, 8), 0xff);
    talloc.free(c, layout(300, 8));
    assert_eq!(talloc.grow(a, l, 200), Ok(c));
    let l = layout(200, 8);
    assert_eq!(talloc.load(c, l, 88), 0x1111_1111_1111_1111);
    // four of the bytes in the last word are the allocation's
    assert_eq!(talloc.load(c, l, 96), 0xffff_ffff_1111_1111);
    assert_eq!(talloc.load(c, l, 104), u64::MAX);
}

#[test]
fn moving_to_a_place_that_overlaps() {
    for dest in [0x1800, 0x1808, 0x17f8, 0x1a00, 0x1600, 0x1c00] {
        let mut talloc = Talloc::new(WordMemory::new(0x1000, 2000), 0x1800);
        talloc.init(span(0x3000, 0x4000));
        let l = layout(40, 8);
        let ptrs: Vec<u64> = (0..6).map(|_| talloc.malloc(l).unwrap()).collect();
        talloc.free(ptrs[1], l);
        talloc.free(ptrs[3], l);
        let free = talloc.scan_for_errors();
        let mut talloc = talloc.mov(dest);
        assert_eq!(talloc.get_bins(), dest);
        assert_eq!(talloc.scan_for_errors(), free);
        assert_eq!(talloc.malloc(l), Ok(ptrs[3]));
        assert_eq!(talloc.malloc(l), Ok(ptrs[1]));
        for &ptr in &ptrs {
            talloc.free(ptr, l);
        }
        assert_eq!(talloc.scan_for_errors(), Some(vec![(0x3000, 0x4000)]));
    }
}

#[test]
fn words_that_memory_has() {
    let memory = WordMemory::new(0x1000, 4);
    assert!(memory.has(0x1000) && memory.has(0x1018));
    assert!(!memory.has(0xff8) && !memory.has(0x1020) && !memory.has(0x1004));
}
