use ironlung::heap::{
    calloc_total, ensure_allocator_init, free_layout_size, header_layout_size, is_cacheable_size,
    malloc_block, malloc_plan, malloc_should_retry, realloc_plan, AllocatorInit, MmapOom, ReallocPlan,
};
use ironlung::quarantine::{
    get_global_quarantine_bytes, quarantine_bytes_cap, quarantine_drain_one, quarantine_push,
    GlobalQuarantineBytes, Quarantine,
};
use ironlung::tls_cache::{
    block_capacity, is_tls_cacheable, size_class_bytes, size_to_class, tls_alloc, tls_drain_all, tls_free,
    tls_stats, CacheBucket, TlsCache,
};

/// Several threads, each with its own cache and quarantine, allocate and
/// free blocks; no block is handed out twice while live, and the shared
/// byte count matches what the quarantines hold.
#[test]
fn test_concurrent_allocations() {
    let mut global = GlobalQuarantineBytes::new();
    let mut caches: Vec<TlsCache> = (0..4).map(|_| TlsCache::new()).collect();
    let mut quarantines: Vec<Quarantine> = (0..4).map(|_| Quarantine::new(4096)).collect();
    let mut next_addr: usize = 0x10000;
    let mut live: Vec<(usize, usize)> = Vec::new();
    for round in 0..50usize {
        for t in 0..4usize {
            let size = 16 + (round * 7 + t * 13) % 200;
            let total = malloc_plan(size).expect("valid size");
            assert_eq!(total, size + 8);
            let (cap, block_total) = malloc_block(size).expect("valid size");
            assert!(cap >= size);
            assert_eq!(block_total, cap + 8);
            let cached = if is_cacheable_size(size) { tls_alloc(&mut caches[t], size) } else { 0 };
            let addr = if cached != 0 {
                cached
            } else {
                next_addr += 4096;
                next_addr
            };
            assert!(!live.iter().any(|&(a, _)| a == addr), "block handed out twice");
            live.push((addr, cap));
        }
        if round % 3 == 2 {
            for t in 0..4usize {
                if let Some((addr, size)) = live.pop() {
                    if !tls_free(&mut caches[t], addr, size) {
                        let released = quarantine_push(&mut quarantines[t], addr, size, &mut global);
                        for (p, _) in released {
                            assert!(!live.iter().any(|&(a, _)| a == p));
                        }
                    }
                }
            }
        }
    }
    let held: usize = quarantines.iter().map(|q| q.total_bytes()).sum();
    assert_eq!(get_global_quarantine_bytes(&global), held);
}

#[test]
fn malloc_plan_sizes() {
    assert_eq!(malloc_plan(0), None);
    assert_eq!(malloc_plan(100), Some(108));
    assert_eq!(malloc_plan(usize::MAX), None);
    assert_eq!(header_layout_size(isize::MAX as usize - 15), Some(isize::MAX as usize - 7));
    assert_eq!(header_layout_size(isize::MAX as usize - 14), None);
    assert_eq!(free_layout_size(100), 108);
    assert!(is_cacheable_size(256));
    assert!(!is_cacheable_size(257));
    assert!(malloc_should_retry(true, 7));
    assert!(!malloc_should_retry(true, 8));
    assert!(!malloc_should_retry(false, 0));
}

#[test]
fn realloc_and_calloc_plans() {
    assert!(realloc_plan(true, 0, 10) == ReallocPlan::Malloc);
    assert!(realloc_plan(false, 16, 0) == ReallocPlan::Free);
    assert!(realloc_plan(false, 16, usize::MAX) == ReallocPlan::Null);
    assert!(realloc_plan(false, 16, 32) == ReallocPlan::Resize { old_total: 24, new_capacity: 32, new_total: 40 });
    // a cacheable size grows to its slab class
    assert!(realloc_plan(false, 16, 20) == ReallocPlan::Resize { old_total: 24, new_capacity: 32, new_total: 40 });
    assert!(realloc_plan(false, 16, 300) == ReallocPlan::Resize { old_total: 24, new_capacity: 300, new_total: 308 });
    assert_eq!(calloc_total(3, 4), Some(12));
    assert_eq!(calloc_total(0, 5), None);
    assert_eq!(calloc_total(usize::MAX, 2), None);
}

#[test]
fn allocator_init_and_oom() {
    let mut init = AllocatorInit::new();
    assert!(ensure_allocator_init(&mut init));
    assert!(!ensure_allocator_init(&mut init));
    let oom = MmapOom;
    assert_eq!(oom.request_size(), 65536);
    assert_eq!(oom.handle_oom(0), None);
    assert_eq!(oom.handle_oom(usize::MAX), None);
    assert_eq!(oom.handle_oom(0x7000_0000), Some((0x7000_0000, 65536)));
}

#[test]
fn size_classes() {
    assert_eq!(size_to_class(0), Some(0));
    assert_eq!(size_to_class(16), Some(0));
    assert_eq!(size_to_class(17), Some(1));
    assert_eq!(size_to_class(300), Some(5));
    assert_eq!(size_to_class(2048), Some(7));
    assert_eq!(size_to_class(2049), None);
    assert!(is_tls_cacheable(2048));
    assert!(!is_tls_cacheable(2049));
    assert_eq!(size_class_bytes(0), 16);
    assert_eq!(size_class_bytes(7), 2048);
}

#[test]
fn cache_bucket_is_bounded_lifo() {
    let mut b = CacheBucket::new();
    assert!(b.is_empty());
    for i in 0..32usize {
        assert!(b.push(0x1000 + i));
    }
    assert!(b.is_full());
    assert!(!b.push(0x9999));
    assert_eq!(b.pop(), 0x1000 + 31);
    assert_eq!(b.pop(), 0x1000 + 30);
    assert_eq!(b.len(), 30);
    let mut e = CacheBucket::new();
    assert_eq!(e.pop(), 0);
}

#[test]
fn tls_free_then_alloc_gives_block_back() {
    let mut c = TlsCache::new();
    assert_eq!(tls_alloc(&mut c, 40), 0);
    assert!(tls_free(&mut c, 0xA000, 64));
    assert!(tls_free(&mut c, 0xB000, 64));
    assert!(!tls_free(&mut c, 0xC000, 5000));
    // any request of the class takes the newest block of the class
    assert_eq!(tls_alloc(&mut c, 33), 0xB000);
    assert_eq!(tls_alloc(&mut c, 64), 0xA000);
    assert_eq!(tls_alloc(&mut c, 64), 0);
    for i in 0..32usize {
        assert!(tls_free(&mut c, 0x100 * (i + 1), 16));
    }
    assert!(!tls_free(&mut c, 0xFFFF, 16));
}

#[test]
fn slab_blocks_hold_every_request_of_their_class() {
    // a request of 8 bytes gets a 16-byte slab block; a later 16-byte request reuses it
    assert_eq!(block_capacity(8), 16);
    assert_eq!(block_capacity(17), 32);
    assert_eq!(block_capacity(5000), 5000);
    assert_eq!(malloc_block(8), Some((16, 24)));
    assert_eq!(malloc_block(200), Some((256, 264)));
    assert_eq!(malloc_block(300), Some((300, 308)));
    assert_eq!(malloc_block(0), None);
    let mut c = TlsCache::new();
    let (cap, _) = malloc_block(8).unwrap();
    assert!(tls_free(&mut c, 0xD000, cap));
    assert_eq!(tls_alloc(&mut c, 16), 0xD000);
    assert!(tls_free(&mut c, 0xD000, cap));
    assert_eq!(tls_drain_all(&mut c), vec![(0xD000, 16)]);
}

#[test]
fn tls_drain_and_stats() {
    let mut c = TlsCache::new();
    tls_free(&mut c, 1, 16);
    tls_free(&mut c, 2, 16);
    tls_free(&mut c, 3, 1000);
    let s = tls_stats(&c);
    assert_eq!(s.total_cached, 3);
    assert_eq!(s.per_class, vec![2, 0, 0, 0, 0, 0, 1, 0]);
    let out = tls_drain_all(&mut c);
    assert_eq!(out, vec![(2, 16), (1, 16), (3, 1024)]);
    assert_eq!(tls_stats(&c).total_cached, 0);
}

#[test]
fn quarantine_cap_from_environment() {
    assert_eq!(quarantine_bytes_cap(None), 524288);
    assert_eq!(quarantine_bytes_cap(Some(b"0")), 0);
    assert_eq!(quarantine_bytes_cap(Some(b"100")), 4096);
    assert_eq!(quarantine_bytes_cap(Some(b"+8192")), 8192);
    assert_eq!(quarantine_bytes_cap(Some(b"99999999999")), 1073741824);
    assert_eq!(quarantine_bytes_cap(Some(b"abc")), 524288);
    assert_eq!(quarantine_bytes_cap(Some(b"")), 524288);
    assert_eq!(quarantine_bytes_cap(Some(b"-5")), 524288);
    assert_eq!(quarantine_bytes_cap(Some(b"99999999999999999999999")), 524288);
}

#[test]
fn quarantine_is_fifo_and_bounded() {
    let mut g = GlobalQuarantineBytes::new();
    let mut q = Quarantine::new(300);
    assert!(quarantine_push(&mut q, 0x10, 100, &mut g).is_empty());
    assert!(quarantine_push(&mut q, 0x20, 100, &mut g).is_empty());
    assert!(quarantine_push(&mut q, 0x30, 100, &mut g).is_empty());
    assert_eq!(get_global_quarantine_bytes(&g), 300);
    // over the byte cap: the oldest leaves, the new block is held
    assert_eq!(quarantine_push(&mut q, 0x40, 100, &mut g), vec![(0x10, 100)]);
    assert_eq!(q.held(), vec![(0x20, 100), (0x30, 100), (0x40, 100)]);
    // a larger block: the oldest leave, oldest first, until it fits
    assert_eq!(
        quarantine_push(&mut q, 0x50, 250, &mut g),
        vec![(0x20, 100), (0x30, 100), (0x40, 100)]
    );
    assert_eq!(q.held(), vec![(0x50, 250)]);
    assert_eq!(q.total_bytes(), 250);
    assert_eq!(get_global_quarantine_bytes(&g), 250);
    // a block larger than the cap can never be held: released at once
    assert_eq!(quarantine_push(&mut q, 0x60, 400, &mut g), vec![(0x60, 400)]);
    assert_eq!(q.held(), vec![(0x50, 250)]);
    // just enough leave: one 250-byte block makes room for 50 bytes
    assert_eq!(quarantine_push(&mut q, 0x70, 50, &mut g), Vec::<(usize, usize)>::new());
    assert_eq!(quarantine_push(&mut q, 0x80, 10, &mut g), vec![(0x50, 250)]);
    assert_eq!(q.held(), vec![(0x70, 50), (0x80, 10)]);
    assert_eq!(get_global_quarantine_bytes(&g), 60);
    assert_eq!(quarantine_drain_one(&mut q, &mut g), Some((0x70, 50)));
    assert_eq!(quarantine_drain_one(&mut q, &mut g), Some((0x80, 10)));
    assert_eq!(quarantine_drain_one(&mut q, &mut g), None);
    assert_eq!(get_global_quarantine_bytes(&g), 0);
}

#[test]
fn quarantine_count_cap_and_off() {
    let mut g = GlobalQuarantineBytes::new();
    let mut q = Quarantine::new(1 << 20);
    for i in 0..256usize {
        assert!(quarantine_push(&mut q, 0x1000 * (i + 1), 8, &mut g).is_empty());
    }
    assert_eq!(q.len(), 256);
    assert_eq!(get_global_quarantine_bytes(&g), 2048);
    assert_eq!(quarantine_push(&mut q, 0xFFFF_0000, 8, &mut g), vec![(0x1000, 8)]);
    assert_eq!(q.len(), 256);
    assert_eq!(q.held()[255], (0xFFFF_0000, 8));
    let mut off = Quarantine::new(0);
    assert_eq!(quarantine_push(&mut off, 0x77, 10, &mut g), vec![(0x77, 10)]);
    assert_eq!(off.len(), 0);
    let mut z = Quarantine::new(4096);
    quarantine_push(&mut z, 0, 10, &mut g);
    assert_eq!(quarantine_drain_one(&mut z, &mut g), None);
    assert_eq!(z.len(), 1);
}
