use buddy_pool::{
    b_to_k, Avail, BuddyError, BuddyPool, BLOCK_AVAIL, BLOCK_RESERVED, BLOCK_UNUSED, DEFAULT_K,
    ENOMEM, HEADER_SIZE, LEAST_K, MAX_K, MIN_K, NIL, NULL, SENTINEL_BASE,
};

const H: u64 = HEADER_SIZE as u64;

fn small_pool() -> BuddyPool {
    let mut pool = BuddyPool::new(1usize << MIN_K).unwrap();
    pool.init();
    pool
}

/// The number of free blocks of each order, from order 0 to that of the pool.
fn census(pool: &BuddyPool) -> Vec<usize> {
    (0..=pool.max_order()).map(|k| pool.walk_forward(k).len()).collect()
}

fn is_full(pool: &BuddyPool) -> bool {
    let top = pool.max_order();
    (0..top).all(|k| pool.walk_forward(k).is_empty()) && pool.walk_forward(top) == vec![0]
}

#[test]
fn order_of_exact_values() {
    assert_eq!(b_to_k(32), 5);
    assert_eq!(b_to_k(33), 6);
    assert_eq!(b_to_k(64), 6);
    assert_eq!(b_to_k(65), 7);
    assert_eq!(b_to_k(1 << 20), 20);
    assert_eq!(b_to_k((1 << 20) + 1), 21);
    assert_eq!(b_to_k(usize::MAX), usize::BITS as usize);
}

#[test]
fn order_is_least_power_that_holds() {
    for bytes in 1usize..5000 {
        let k = b_to_k(bytes);
        assert!((1usize << k) >= bytes);
        assert!(k == 0 || (1usize << (k - 1)) < bytes);
    }
}

#[test]
fn pool_order_is_clamped() {
    assert_eq!(BuddyPool::pool_order(0), DEFAULT_K);
    assert_eq!(BuddyPool::pool_order(1), MIN_K);
    assert_eq!(BuddyPool::pool_order(1 << MIN_K), MIN_K);
    assert_eq!(BuddyPool::pool_order((1 << MIN_K) + 1), MIN_K + 1);
    assert_eq!(BuddyPool::pool_order(1 << 25), 25);
    assert_eq!(BuddyPool::pool_order(1 << (MAX_K - 1)), MAX_K - 1);
    assert_eq!(BuddyPool::pool_order(1 << MAX_K), MAX_K - 1);
    assert_eq!(BuddyPool::pool_order(usize::MAX), MAX_K - 1);
}

#[test]
fn small_request_gets_smallest_pool() {
    let pool = BuddyPool::new(100).unwrap();
    assert_eq!(pool.max_order(), MIN_K);
    assert_eq!(pool.size(), 1 << MIN_K);
}

#[test]
fn zero_request_gets_default_pool() {
    let mut pool = BuddyPool::new(0).unwrap();
    assert_eq!(pool.max_order(), DEFAULT_K);
    assert_eq!(pool.size(), 1 << DEFAULT_K);
    pool.init();
    assert!(is_full(&pool));
}

#[test]
fn missing_mapping_is_no_memory() {
    errno::set_errno(errno::Errno(0));
    let made = BuddyPool::assemble(MIN_K, None);
    assert!(matches!(made, Err(BuddyError::NoMemory)));
    assert_eq!(errno::errno().0, ENOMEM);
    assert_eq!(ENOMEM, 12);
}

#[test]
fn granted_mapping_becomes_the_region() {
    let region = memmap2::MmapMut::map_anon(1 << MIN_K).unwrap();
    let mut pool = BuddyPool::assemble(MIN_K, Some(region)).unwrap();
    assert_eq!(pool.size(), 1 << MIN_K);
    pool.init();
    assert!(is_full(&pool));
}

#[test]
fn heads_are_self_linked_after_new() {
    let pool = BuddyPool::new(1 << MIN_K).unwrap();
    for k in 0..MAX_K {
        let head = BuddyPool::head_addr(k);
        assert_eq!(head, SENTINEL_BASE + H * k as u64);
        assert_eq!(
            pool.header_at(head),
            Some(Avail { tag: BLOCK_UNUSED, kval: 0, next: head, prev: head })
        );
    }
}

#[test]
fn fresh_header_is_on_no_list() {
    assert_eq!(Avail::new(), Avail { tag: BLOCK_UNUSED, kval: 0, next: NIL, prev: NIL });
}

#[test]
fn init_makes_one_block_of_the_whole_region() {
    let pool = small_pool();
    let top = BuddyPool::head_addr(MIN_K);
    assert_eq!(
        pool.header_at(top),
        Some(Avail { tag: BLOCK_UNUSED, kval: MIN_K, next: 0, prev: 0 })
    );
    assert_eq!(
        pool.header_at(0),
        Some(Avail { tag: BLOCK_AVAIL, kval: MIN_K, next: top, prev: top })
    );
    for k in 0..MIN_K {
        let head = BuddyPool::head_addr(k);
        assert_eq!(
            pool.header_at(head),
            Some(Avail { tag: BLOCK_UNUSED, kval: k, next: head, prev: head })
        );
    }
}

#[test]
fn no_header_outside_region_and_heads() {
    let pool = small_pool();
    let len = pool.size() as u64;
    assert!(pool.header_at(len - H).is_some());
    assert_eq!(pool.header_at(len - H + 1), None);
    assert_eq!(pool.header_at(len), None);
    assert_eq!(pool.header_at(SENTINEL_BASE + 1), None);
    assert_eq!(pool.header_at(SENTINEL_BASE + H * MAX_K as u64), None);
    assert_eq!(pool.header_at(NIL), None);
}

#[test]
fn first_allocation_splits_down_from_the_top() {
    let mut pool = small_pool();
    let mem = pool.malloc(1).unwrap();
    assert_eq!(mem, H);
    let order = b_to_k(1 + HEADER_SIZE);
    assert_eq!(order, 6);
    for k in 0..order {
        assert!(pool.walk_forward(k).is_empty());
    }
    // The upper half of each cut is the buddy of the block that was kept.
    for k in order..MIN_K {
        assert_eq!(pool.walk_forward(k), vec![1u64 << k]);
        assert_eq!(pool.walk_forward(k)[0], 0u64 ^ (1u64 << k));
    }
    assert!(pool.walk_forward(MIN_K).is_empty());
}

#[test]
fn allocation_takes_the_head_of_the_least_list() {
    let mut pool = small_pool();
    let a = pool.malloc(1).unwrap();
    // Order 6 has one free block, at 64: the next request of that order gets it.
    let b = pool.malloc(1).unwrap();
    assert_eq!(b, 64 + H);
    assert!(pool.walk_forward(6).is_empty());
    // Now order 7 is the least with a free block: it is split.
    let c = pool.malloc(1).unwrap();
    assert_eq!(c, 128 + H);
    assert_eq!(pool.walk_forward(6), vec![192]);
    assert!(pool.walk_forward(7).is_empty());
    pool.free(a);
    pool.free(b);
    pool.free(c);
    assert!(is_full(&pool));
}

#[test]
fn freed_block_joins_the_tail_of_its_list() {
    let mut pool = small_pool();
    let a = pool.malloc(1).unwrap();
    let b = pool.malloc(1).unwrap();
    let c = pool.malloc(1).unwrap();
    let d = pool.malloc(1).unwrap();
    assert_eq!((a, b, c, d), (H, 64 + H, 128 + H, 192 + H));
    // Neither has a free buddy: both stay on the list of order 6, in the
    // order in which they were freed.
    pool.free(c);
    pool.free(a);
    assert_eq!(pool.walk_forward(6), vec![128, 0]);
    assert_eq!(pool.walk_backward(6), vec![0, 128]);
    pool.free(b);
    // 0 and 64 merge into the block of order 7 at 0.
    assert_eq!(pool.walk_forward(6), vec![128]);
    assert_eq!(pool.walk_forward(7), vec![0]);
    pool.free(d);
    assert!(is_full(&pool));
}

#[test]
fn lower_block_survives_a_merge() {
    let mut pool = small_pool();
    let a = pool.malloc(1).unwrap();
    let b = pool.malloc(1).unwrap();
    pool.free(a);
    pool.free(b);
    assert!(is_full(&pool));
    let top = pool.header_at(0).unwrap();
    assert_eq!(top.tag, BLOCK_AVAIL);
    assert_eq!(top.kval, MIN_K);
}

#[test]
fn walks_visit_the_same_blocks() {
    let mut pool = small_pool();
    let mems: Vec<u64> = (0..40).map(|i| pool.malloc(i * 7).unwrap()).collect();
    for (i, mem) in mems.iter().enumerate() {
        if i % 3 != 1 {
            pool.free(*mem);
        }
    }
    for k in 0..=pool.max_order() {
        let forward = pool.walk_forward(k);
        let mut backward = pool.walk_backward(k);
        backward.reverse();
        assert_eq!(forward, backward);
        for block in forward {
            let header = pool.header_at(block).unwrap();
            assert_eq!(header.tag, BLOCK_AVAIL);
            assert_eq!(header.kval, k);
            assert_eq!(block % (1u64 << k), 0);
        }
    }
}

#[test]
fn pool_is_full_after_everything_is_freed() {
    let mut pool = small_pool();
    let mut held: Vec<u64> = Vec::new();
    let mut seed: u64 = 17;
    for round in 0..400 {
        seed = seed.wrapping_mul(6364136223846793005).wrapping_add(1442695040888963407);
        let pick = (seed >> 33) as usize;
        if round % 3 == 2 && !held.is_empty() {
            let mem = held.swap_remove(pick % held.len());
            pool.free(mem);
        } else if round % 7 == 6 && !held.is_empty() {
            let at = pick % held.len();
            held[at] = pool.realloc(held[at], pick % 3000).unwrap();
            if !pool.owns(held[at]) {
                held.swap_remove(at);
            }
        } else {
            held.push(pool.malloc(pick % 2000).unwrap());
        }
    }
    for mem in held {
        pool.free(mem);
    }
    assert!(is_full(&pool));
}

#[test]
fn allocated_pointers_differ() {
    let mut pool = small_pool();
    let mut mems: Vec<u64> = (0..200).map(|i| pool.malloc(i % 50).unwrap()).collect();
    mems.sort();
    mems.dedup();
    assert_eq!(mems.len(), 200);
}

#[test]
fn malloc_then_free_is_full() {
    for size in [0usize, 1, 31, 32, 33, 1000, 65536, (1 << MIN_K) - HEADER_SIZE] {
        let mut pool = small_pool();
        let mem = pool.malloc(size).unwrap();
        let header = pool.header_at(mem - H).unwrap();
        assert_eq!(header.tag, BLOCK_RESERVED);
        assert_eq!(header.kval, b_to_k(size + HEADER_SIZE));
        pool.free(mem);
        assert!(is_full(&pool));
    }
}

#[test]
fn request_over_the_region_fails() {
    let mut pool = small_pool();
    errno::set_errno(errno::Errno(0));
    assert_eq!(pool.malloc((1 << MIN_K) - HEADER_SIZE + 1), Err(BuddyError::NoMemory));
    assert_eq!(errno::errno().0, ENOMEM);
    assert_eq!(pool.malloc(usize::MAX), Err(BuddyError::NoMemory));
    assert_eq!(pool.malloc(usize::MAX - HEADER_SIZE + 1), Err(BuddyError::NoMemory));
    assert!(is_full(&pool));
}

#[test]
fn whole_region_in_one_block() {
    let mut pool = small_pool();
    let mem = pool.malloc((1 << MIN_K) - HEADER_SIZE).unwrap();
    assert_eq!(mem, H);
    assert!(census(&pool).iter().all(|n| *n == 0));
    errno::set_errno(errno::Errno(0));
    assert_eq!(pool.malloc(0), Err(BuddyError::NoMemory));
    assert_eq!(pool.malloc(1), Err(BuddyError::NoMemory));
    assert_eq!(errno::errno().0, ENOMEM);
    pool.free(mem);
    assert!(is_full(&pool));
}

#[test]
fn no_free_block_large_enough() {
    let mut pool = small_pool();
    let a = pool.malloc((1 << (MIN_K - 1)) - HEADER_SIZE).unwrap();
    let b = pool.malloc(1).unwrap();
    // The upper half is cut: no block of order MIN_K - 1 is left.
    let before = census(&pool);
    assert_eq!(pool.malloc((1 << (MIN_K - 1)) - HEADER_SIZE), Err(BuddyError::NoMemory));
    assert_eq!(census(&pool), before);
    pool.free(a);
    pool.free(b);
    assert!(is_full(&pool));
}

#[test]
fn free_of_null_changes_nothing() {
    let mut pool = small_pool();
    let mem = pool.malloc(10).unwrap();
    let before = census(&pool);
    pool.free(NULL);
    assert_eq!(census(&pool), before);
    assert!(pool.owns(mem));
}

#[test]
fn free_of_unknown_pointer_changes_nothing() {
    let mut pool = small_pool();
    let mem = pool.malloc(100).unwrap();
    let before = census(&pool);
    pool.free(mem + 1);
    pool.free(5);
    pool.free(1 << 40);
    pool.free(64 + H);
    assert_eq!(census(&pool), before);
    assert!(pool.owns(mem));
    pool.free(mem);
    assert!(is_full(&pool));
    // A second free of the same pointer finds it taken back.
    pool.free(mem);
    assert!(is_full(&pool));
}

#[test]
fn owns_tells_allocated_pointers() {
    let mut pool = small_pool();
    assert!(!pool.owns(NULL));
    assert!(!pool.owns(H));
    let a = pool.malloc(1).unwrap();
    let b = pool.malloc(500).unwrap();
    assert!(pool.owns(a));
    assert!(pool.owns(b));
    assert!(!pool.owns(a + 1));
    assert!(!pool.owns(a - 1));
    assert!(!pool.owns(b + H));
    assert!(!pool.owns(64 + H));
    assert!(!pool.owns(pool.size() as u64 + H));
    assert!(!pool.owns(u64::MAX));
    // A header written by the caller into its own bytes does not fool it.
    assert!(pool.store(b, 32, BLOCK_RESERVED));
    assert!(pool.store(b, 33, 5));
    assert!(!pool.owns(b + 32 + H));
    pool.free(a);
    assert!(!pool.owns(a));
    assert!(pool.owns(b));
}

#[test]
fn bytes_can_be_written_and_read() {
    let mut pool = small_pool();
    let mem = pool.malloc(100).unwrap();
    let room = (1usize << b_to_k(100 + HEADER_SIZE)) - HEADER_SIZE;
    assert_eq!(room, 224);
    for at in 0..room {
        assert!(pool.store(mem, at, (at % 251) as u8));
    }
    for at in 0..room {
        assert_eq!(pool.load(mem, at), Some((at % 251) as u8));
    }
    assert!(!pool.store(mem, room, 1));
    assert_eq!(pool.load(mem, room), None);
    assert_eq!(pool.load(mem + 1, 0), None);
    assert!(!pool.store(NULL, 0, 1));
    // The header is out of the caller's reach.
    let header = pool.header_at(mem - H).unwrap();
    assert_eq!(header.tag, BLOCK_RESERVED);
    assert_eq!(header.kval, 8);
}

#[test]
fn other_blocks_keep_their_bytes() {
    let mut pool = small_pool();
    let a = pool.malloc(32).unwrap();
    let b = pool.malloc(32).unwrap();
    for at in 0..32 {
        assert!(pool.store(a, at, 0xaa));
        assert!(pool.store(b, at, 0xbb));
    }
    let c = pool.malloc(3000).unwrap();
    let d = pool.realloc(c, 10).unwrap();
    pool.free(d);
    pool.free(a);
    for at in 0..32 {
        assert_eq!(pool.load(b, at), Some(0xbb));
    }
}

#[test]
fn realloc_keeps_bytes_when_growing() {
    let mut pool = small_pool();
    let mem = pool.malloc(16).unwrap();
    let before: Vec<u8> = (0..32u8).map(|i| i.wrapping_mul(37).wrapping_add(1)).collect();
    for (at, value) in before.iter().enumerate() {
        assert!(pool.store(mem, at, *value));
    }
    let grown = pool.realloc(mem, 5000).unwrap();
    assert_ne!(grown, mem);
    assert!(pool.owns(grown));
    assert!(!pool.owns(mem));
    assert_eq!(pool.header_at(grown - H).unwrap().kval, b_to_k(5000 + HEADER_SIZE));
    for (at, value) in before.iter().enumerate() {
        assert_eq!(pool.load(grown, at), Some(*value));
    }
    pool.free(grown);
    assert!(is_full(&pool));
}

#[test]
fn realloc_keeps_bytes_when_shrinking() {
    let mut pool = small_pool();
    let mem = pool.malloc(1000).unwrap();
    for at in 0..992 {
        assert!(pool.store(mem, at, (at % 200) as u8 + 1));
    }
    let shrunk = pool.realloc(mem, 40).unwrap();
    assert_eq!(shrunk, mem);
    assert_eq!(pool.header_at(mem - H).unwrap().kval, 7);
    for at in 0..96 {
        assert_eq!(pool.load(mem, at), Some((at % 200) as u8 + 1));
    }
    assert_eq!(pool.load(mem, 96), None);
    // The halves that were cut off are free again.
    assert_eq!(pool.walk_forward(7), vec![128]);
    assert_eq!(pool.walk_forward(8), vec![256]);
    assert_eq!(pool.walk_forward(9), vec![512]);
    pool.free(shrunk);
    assert!(is_full(&pool));
}

#[test]
fn realloc_to_same_order_gives_same_pointer() {
    let mut pool = small_pool();
    let mem = pool.malloc(100).unwrap();
    let before = census(&pool);
    for size in [97usize, 100, 128, 224] {
        assert_eq!(pool.realloc(mem, size), Ok(mem));
        assert_eq!(census(&pool), before);
    }
}

#[test]
fn realloc_of_null_is_malloc() {
    let mut one = small_pool();
    let mut two = small_pool();
    for size in [0usize, 5, 77, 4000] {
        assert_eq!(one.realloc(NULL, size), two.malloc(size));
        assert_eq!(census(&one), census(&two));
    }
    errno::set_errno(errno::Errno(0));
    assert_eq!(one.realloc(NULL, 1 << MIN_K), Err(BuddyError::NoMemory));
    assert_eq!(errno::errno().0, ENOMEM);
}

#[test]
fn realloc_to_zero_releases() {
    let mut pool = small_pool();
    let mem = pool.malloc(16).unwrap();
    assert_eq!(pool.realloc(mem, 0), Ok(mem));
    assert!(!pool.owns(mem));
    assert!(is_full(&pool));
}

#[test]
fn realloc_to_zero_keeps_a_smallest_block() {
    let mut pool = small_pool();
    let mem = pool.malloc(0).unwrap();
    assert_eq!(pool.header_at(mem - H).unwrap().kval, LEAST_K);
    assert_eq!(pool.realloc(mem, 0), Ok(mem));
    assert!(pool.owns(mem));
    pool.free(mem);
    assert!(is_full(&pool));
}

#[test]
fn realloc_over_the_region_fails() {
    let mut pool = small_pool();
    let mem = pool.malloc(16).unwrap();
    let before = census(&pool);
    errno::set_errno(errno::Errno(0));
    assert_eq!(pool.realloc(mem, 1 << MIN_K), Err(BuddyError::NoMemory));
    assert_eq!(errno::errno().0, ENOMEM);
    assert_eq!(pool.realloc(mem, usize::MAX), Err(BuddyError::NoMemory));
    // The size is looked at before the pointer.
    assert_eq!(pool.realloc(mem + 1, 1 << MIN_K), Err(BuddyError::NoMemory));
    assert_eq!(census(&pool), before);
    assert!(pool.owns(mem));
}

#[test]
fn realloc_without_room_fails_and_keeps_the_block() {
    let mut pool = small_pool();
    let a = pool.malloc((1 << (MIN_K - 1)) - HEADER_SIZE).unwrap();
    let b = pool.malloc(16).unwrap();
    assert!(pool.store(b, 0, 9));
    let before = census(&pool);
    errno::set_errno(errno::Errno(0));
    assert_eq!(pool.realloc(b, (1 << (MIN_K - 1)) - HEADER_SIZE), Err(BuddyError::NoMemory));
    assert_eq!(errno::errno().0, ENOMEM);
    assert_eq!(census(&pool), before);
    assert!(pool.owns(b));
    assert_eq!(pool.load(b, 0), Some(9));
    pool.free(a);
    pool.free(b);
    assert!(is_full(&pool));
}

#[test]
fn realloc_of_unknown_pointer_is_corruption() {
    let mut pool = small_pool();
    let mem = pool.malloc(16).unwrap();
    let before = census(&pool);
    assert_eq!(pool.realloc(mem + 1, 10), Err(BuddyError::CorruptedMemoryPool));
    assert_eq!(pool.realloc(5, 10), Err(BuddyError::CorruptedMemoryPool));
    assert_eq!(pool.realloc(1 << 40, 10), Err(BuddyError::CorruptedMemoryPool));
    assert_eq!(census(&pool), before);
    pool.free(mem);
    assert_eq!(pool.realloc(mem, 10), Err(BuddyError::CorruptedMemoryPool));
    assert!(is_full(&pool));
}

#[test]
fn init_again_starts_over() {
    let mut pool = small_pool();
    let mem = pool.malloc(16).unwrap();
    pool.init();
    assert!(is_full(&pool));
    assert!(!pool.owns(mem));
}

#[test]
fn errors_describe_themselves() {
    assert_eq!(BuddyError::NoMemory.message(), "Insufficient memory available");
    assert_eq!(BuddyError::CorruptedMemoryPool.message(), "Memory pool is corrupted or invalid");
    assert_ne!(BuddyError::NoMemory, BuddyError::CorruptedMemoryPool);
}

#[test]
fn flush_leaves_the_pool_as_it_is() {
    let mut pool = small_pool();
    let mem = pool.malloc(16).unwrap();
    assert!(pool.store(mem, 3, 42));
    let _ = pool.flush();
    assert_eq!(pool.load(mem, 3), Some(42));
    pool.free(mem);
    assert!(is_full(&pool));
}
