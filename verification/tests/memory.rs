use pagebump::allocator::{malloc, DummyAllocator, PAGE_SIZE};

#[test]
fn bump_offsets_accumulate() {
    let mut a = DummyAllocator::new();
    let p1 = a.allocate(8);
    let p2 = a.allocate(8);
    let p3 = a.allocate(16);
    assert_eq!(p1.offset, 0);
    assert_eq!(p2.offset, 8);
    assert_eq!(p3.offset, 16);
    assert_eq!(p1.region, p2.region);
    assert_eq!(p2.region, p3.region);
}

#[test]
fn bump_ranges_never_overlap() {
    let mut a = DummyAllocator::new();
    let sizes = [1usize, 7, 64, 128, 1];
    let mut ranges: Vec<(usize, usize, usize)> = Vec::new();
    for s in sizes {
        let p = a.allocate(s);
        ranges.push((p.region, p.offset, s));
    }
    for i in 0..ranges.len() {
        for j in 0..ranges.len() {
            if i != j && ranges[i].0 == ranges[j].0 {
                let (_, oi, si) = ranges[i];
                let (_, oj, sj) = ranges[j];
                assert!(oi + si <= oj || oj + sj <= oi);
            }
        }
    }
}

#[test]
fn exhausted_region_is_replaced() {
    let mut a = DummyAllocator::new();
    let p1 = a.allocate(PAGE_SIZE);
    let p2 = a.allocate(1);
    assert_eq!(p1.offset, 0);
    assert_ne!(p1.region, p2.region);
    assert_eq!(p2.offset, 0);
}

#[test]
fn oversized_request_gets_dedicated_region() {
    let mut a = DummyAllocator::new();
    let small_before = a.allocate(8);
    let big = a.allocate(PAGE_SIZE + 1000);
    let small_after = a.allocate(8);
    // the oversized request went to a region of its own, at its base
    assert_ne!(big.region, small_before.region);
    assert_eq!(big.offset, 0);
    // and the bump state was not disturbed: the next small request lands in
    // the pre-existing standard region, right after the first one
    assert_eq!(small_after.region, small_before.region);
    assert_eq!(small_after.offset, 8);
}

#[test]
fn dealloc_is_a_no_op() {
    let mut a = DummyAllocator::new();
    let p1 = a.allocate(8);
    a.dealloc(p1, 8);
    let p2 = a.allocate(8);
    // nothing was reclaimed: the cursor kept moving forward
    assert_eq!(p2.offset, 8);
}

#[test]
fn malloc_allocates_like_the_allocator() {
    let mut a = DummyAllocator::new();
    let p1 = malloc(&mut a, 16);
    let p2 = malloc(&mut a, 16);
    assert_eq!(p1.offset, 0);
    assert_eq!(p2.offset, 16);
    assert_eq!(p1.region, p2.region);
}

#[test]
fn growth_keeps_elements_in_order() {
    let mut a = DummyAllocator::new();
    let mut b = pagebump::buffer::Vec::with_capacity(&mut a, 16);
    for i in 0..5u8 {
        b.push(&mut a, i + 1);
    }
    assert_eq!(b.len(), 5);
    assert_eq!(b.as_slice(&a), &[1, 2, 3, 4, 5]);
}

#[test]
fn grow_preserves_prefix() {
    let mut a = DummyAllocator::new();
    let mut b = pagebump::buffer::Vec::with_capacity(&mut a, 2);
    b.push(&mut a, 10);
    b.push(&mut a, 20);
    let before: Vec<u8> = b.as_slice(&a).to_vec();
    b.push(&mut a, 30);
    // a grow happened; the old bytes survived it exactly
    assert!(b.capacity > 2);
    assert_eq!(&b.as_slice(&a)[..2], &before[..]);
    assert_eq!(b.as_slice(&a), &[10, 20, 30]);
}

#[test]
fn growable_buffer_of_capacity_one() {
    let mut a = DummyAllocator::new();
    let mut b = pagebump::buffer::Vec::with_capacity(&mut a, 1);
    b.push(&mut a, 2);
    b.push(&mut a, 3);
    assert!(b.capacity > 1);
    assert_eq!(b.len(), 2);
    assert_eq!(b.as_slice(&a), &[2, 3]);
}

#[test]
fn push_slice_appends_in_order() {
    let mut a = DummyAllocator::new();
    let mut b = pagebump::buffer::Vec::with_capacity(&mut a, 3);
    b.push_slice(&mut a, &[9, 8, 7, 6]);
    b.push_slice(&mut a, &[5]);
    assert_eq!(b.len(), 5);
    assert_eq!(b.as_slice(&a), &[9, 8, 7, 6, 5]);
}

#[test]
fn clone_is_independent_of_source() {
    let mut a = DummyAllocator::new();
    let mut b = pagebump::buffer::Vec::with_capacity(&mut a, 4);
    b.push(&mut a, 1);
    b.push(&mut a, 2);
    let mut c = b.clone(&mut a);
    assert_eq!(c.as_slice(&a), &[1, 2]);
    assert_eq!(c.capacity, b.capacity);
    // mutating the clone leaves the source untouched
    c.push(&mut a, 9);
    assert_eq!(b.as_slice(&a), &[1, 2]);
    assert_eq!(c.as_slice(&a), &[1, 2, 9]);
    // and mutating the source leaves the clone untouched
    b.push(&mut a, 7);
    assert_eq!(b.as_slice(&a), &[1, 2, 7]);
    assert_eq!(c.as_slice(&a), &[1, 2, 9]);
}

#[test]
fn fresh_buffer_sits_at_the_first_region_base() {
    let mut a = DummyAllocator::new();
    let b = pagebump::buffer::Vec::with_capacity(&mut a, 8);
    let p = b.as_ptr();
    assert_eq!(p.region, 0);
    assert_eq!(p.offset, 0);
    assert_eq!(b.len(), 0);
}

#[test]
fn hello_world_text() {
    let mut a = DummyAllocator::new();
    let mut t = pagebump::text::String::from(&mut a, "Hello");
    t.push(&mut a, " world!");
    assert_eq!(t.len(), 12);
    assert_eq!(t.as_slice(&a), b"Hello world!");
}

#[test]
fn text_keeps_multibyte_utf8() {
    let mut a = DummyAllocator::new();
    let mut t = pagebump::text::String::from(&mut a, "h\u{e9}llo");
    t.push(&mut a, " \u{1f600}");
    let expected = "h\u{e9}llo \u{1f600}";
    assert_eq!(t.as_slice(&a), expected.as_bytes());
    assert_eq!(t.len(), expected.len());
}
