use buddy_pool::{
    b_to_k, BuddyError, BuddyPool, BLOCK_AVAIL, BLOCK_RESERVED, BLOCK_UNUSED, DEFAULT_K, ENOMEM,
    HEADER_SIZE, MIN_K, NULL,
};

const AVAIL_SIZE: usize = HEADER_SIZE;

/// The address of the header of the block behind `mem`.
fn header_of(mem: u64) -> u64 {
    mem - AVAIL_SIZE as u64
}

/// Walks the free list of order `k` in both directions, checks every node on
/// the way, and gives the number of blocks on it.
fn get_size_and_validate(pool: &BuddyPool, k: usize) -> usize {
    let list = BuddyPool::head_addr(k);
    let head = pool.header_at(list).unwrap();
    let kval = head.kval;
    assert_eq!(head.tag, BLOCK_UNUSED);
    let mut count = 0;
    let mut current = head.next;
    while current != list {
        count += 1;
        let a = pool.header_at(current).unwrap();
        assert_eq!(a.tag, BLOCK_AVAIL);
        assert_eq!(a.kval, kval);
        current = a.next;
    }

    let mut count_rev = 0;
    current = head.prev;
    while current != list {
        count_rev += 1;
        let a = pool.header_at(current).unwrap();
        assert_eq!(a.tag, BLOCK_AVAIL);
        assert_eq!(a.kval, kval);
        current = a.prev;
    }
    assert_eq!(count, count_rev);
    count
}

/// Fails if the pool has any available block.
fn check_buddy_pool_empty(pool: &BuddyPool) {
    for i in 0..=pool.max_order() {
        assert_eq!(pool.header_at(BuddyPool::head_addr(i)).unwrap().kval, i);
        assert_eq!(get_size_and_validate(pool, i), 0);
    }
}

/// Fails if the pool has any block that is not available.
fn check_buddy_pool_full(pool: &BuddyPool) {
    let kval_m = pool.max_order();
    for i in 0..kval_m {
        assert_eq!(pool.header_at(BuddyPool::head_addr(i)).unwrap().kval, i);
        assert_eq!(get_size_and_validate(pool, i), 0);
    }
    let top = pool.header_at(BuddyPool::head_addr(kval_m)).unwrap();
    assert_eq!(top.kval, kval_m);
    assert_eq!(get_size_and_validate(pool, kval_m), 1);
    assert_eq!(top.next, top.prev);
    // The one block starts where the region starts.
    assert_eq!(top.next, 0);
}

#[test]
fn test_create_destroy() {
    for k in MIN_K..DEFAULT_K {
        let num_bytes = (1u64 << k) as usize;
        let pool: BuddyPool = BuddyPool::new(num_bytes).unwrap();
        assert_eq!(pool.size(), num_bytes);
    }
}

#[test]
fn test_init() {
    for k in MIN_K..DEFAULT_K {
        let num_bytes = (1u64 << k) as usize;
        let mut pool: BuddyPool = BuddyPool::new(num_bytes).unwrap();
        pool.init();
        assert_eq!(pool.max_order(), k);
        check_buddy_pool_full(&pool);
    }
}

#[test]
fn test_b_to_k() {
    assert_eq!(b_to_k(0), 0);
    assert_eq!(b_to_k(1), 0);
    assert_eq!(b_to_k(2), 1);
    assert_eq!(b_to_k(3), 2);
    assert_eq!(b_to_k(4), 2);
    assert_eq!(b_to_k(5), 3);
}

#[test]
fn test_malloc_one_byte() {
    let size = (1u64 << MIN_K) as usize;
    let mut pool = BuddyPool::new(size).unwrap();
    pool.init();
    assert_eq!(pool.max_order(), MIN_K);
    let mem = pool.malloc(1).unwrap();
    let min_kval = b_to_k(1 + AVAIL_SIZE);
    for k in min_kval..pool.max_order() {
        assert_eq!(get_size_and_validate(&pool, k), 1);
    }
    assert_eq!(get_size_and_validate(&pool, pool.max_order()), 0);

    // The memory is usable.
    assert!(pool.store(mem, 0, 0u8));
    assert_eq!(pool.load(mem, 0), Some(0));
    assert!(pool.store(mem, 0, 1));
    assert_eq!(pool.load(mem, 0), Some(1));

    pool.free(mem);
    check_buddy_pool_full(&pool);
}

#[test]
fn test_buddy_malloc_one_large() {
    let bytes = (1u64 << MIN_K) as usize;
    let mut pool = BuddyPool::new(bytes).unwrap();
    pool.init();
    let ask = bytes - AVAIL_SIZE;
    let mem = pool.malloc(ask).unwrap();
    let tmp = pool.header_at(header_of(mem)).unwrap();
    assert_eq!(tmp.kval, MIN_K);
    assert_eq!(tmp.tag, BLOCK_RESERVED);
    check_buddy_pool_empty(&pool);
    errno::set_errno(errno::Errno(0));
    let fail = pool.malloc(5);
    assert!(fail.is_err());
    assert_eq!(fail, Err(BuddyError::NoMemory));
    assert_eq!(errno::errno().0, ENOMEM);
    pool.free(mem);
    check_buddy_pool_full(&pool);
}

#[test]
fn test_2malloc() {
    let mut pool = BuddyPool::new((1u64 << MIN_K) as usize).unwrap();
    pool.init();
    let mem1 = pool.malloc(1).unwrap();
    let mem2 = pool.malloc(128).unwrap();
    let mem1_kval = b_to_k(1 + AVAIL_SIZE);
    let mem2_kval = b_to_k(128 + AVAIL_SIZE);
    let avail1 = pool.header_at(header_of(mem1)).unwrap();
    let avail2 = pool.header_at(header_of(mem2)).unwrap();
    assert_eq!(avail1.kval, mem1_kval);
    assert_eq!(avail2.kval, mem2_kval);
    assert_eq!(avail1.tag, BLOCK_RESERVED);
    assert_eq!(avail2.tag, BLOCK_RESERVED);
    pool.free(mem1);
    pool.free(mem2);
    check_buddy_pool_full(&pool);
}

#[test]
fn test_many_malloc() {
    let mut pool = BuddyPool::new((1u64 << MIN_K) as usize).unwrap();
    pool.init();
    let mut mems: [u64; 100] = [NULL; 100];
    for i in 0..100 {
        mems[i] = pool.malloc(i).unwrap();
        let kval = b_to_k(i + AVAIL_SIZE);
        let avail = pool.header_at(header_of(mems[i])).unwrap();
        assert_eq!(avail.kval, kval);
        assert_eq!(avail.tag, BLOCK_RESERVED);
    }
    for i in 0..100 {
        assert_eq!(mems[i + 1..100].contains(&mems[i]), false)
    }
    for mem in mems {
        pool.free(mem);
    }
    check_buddy_pool_full(&pool);
}

#[test]
fn test_realloc_0() {
    let mut pool = BuddyPool::new((1u64 << MIN_K) as usize).unwrap();
    pool.init();
    let mem = pool.malloc(16).unwrap();
    let _ = pool.realloc(mem, 0).unwrap();
    check_buddy_pool_full(&pool);
}

#[test]
fn test_realloc_smaller() {
    let mut pool = BuddyPool::new((1u64 << MIN_K) as usize).unwrap();
    pool.init();
    let mem = pool.malloc(256).unwrap();
    let avail = pool.header_at(header_of(mem)).unwrap();
    assert_eq!(avail.kval, b_to_k(256 + AVAIL_SIZE));
    assert_eq!(avail.tag, BLOCK_RESERVED);
    let mem2 = pool.realloc(mem, 8).unwrap();
    let avail = pool.header_at(header_of(mem2)).unwrap();
    assert_eq!(avail.kval, b_to_k(8 + AVAIL_SIZE));
    assert_eq!(avail.tag, BLOCK_RESERVED);
    pool.free(mem2);
    check_buddy_pool_full(&pool);
}

#[test]
fn test_realloc_larger() {
    let mut pool = BuddyPool::new((1u64 << MIN_K) as usize).unwrap();
    pool.init();
    let mem = pool.malloc(16).unwrap();
    let avail = pool.header_at(header_of(mem)).unwrap();
    assert_eq!(avail.kval, b_to_k(16 + AVAIL_SIZE));
    assert_eq!(avail.tag, BLOCK_RESERVED);

    assert!(pool.store(mem, 0, 123));

    let mem2 = pool.realloc(mem, 128).unwrap();
    let avail = pool.header_at(header_of(mem2)).unwrap();
    assert_eq!(avail.kval, b_to_k(128 + AVAIL_SIZE));
    assert_eq!(avail.tag, BLOCK_RESERVED);

    assert_eq!(pool.load(mem2, 0), Some(123));

    pool.free(mem2);
    check_buddy_pool_full(&pool);
}

#[test]
fn test_realloc_same() {
    let mut pool = BuddyPool::new((1u64 << MIN_K) as usize).unwrap();
    pool.init();
    let mem = pool.malloc(128).unwrap();
    let avail = pool.header_at(header_of(mem)).unwrap();
    assert_eq!(avail.kval, b_to_k(128 + AVAIL_SIZE));
    assert_eq!(avail.tag, BLOCK_RESERVED);
    let mem2 = pool.realloc(mem, 128).unwrap();
    let avail = pool.header_at(header_of(mem2)).unwrap();
    assert_eq!(avail.kval, b_to_k(128 + AVAIL_SIZE));
    assert_eq!(avail.tag, BLOCK_RESERVED);
    let mem3 = pool.realloc(mem2, 129).unwrap();
    let avail = pool.header_at(header_of(mem3)).unwrap();
    assert_eq!(avail.kval, b_to_k(128 + AVAIL_SIZE));
    assert_eq!(avail.tag, BLOCK_RESERVED);
    pool.free(mem2);
    check_buddy_pool_full(&pool);
}

#[test]
fn test_realloc_null() {
    let mut pool = BuddyPool::new((1u64 << MIN_K) as usize).unwrap();
    pool.init();
    let mem = pool.realloc(NULL, 128).unwrap();
    let avail = pool.header_at(header_of(mem)).unwrap();
    assert_eq!(avail.kval, b_to_k(128 + AVAIL_SIZE));
    assert_eq!(avail.tag, BLOCK_RESERVED);
    pool.free(mem);
    check_buddy_pool_full(&pool);
}

#[test]
fn test_alloc_too_large() {
    let mut pool = BuddyPool::new((1u64 << MIN_K) as usize).unwrap();
    pool.init();
    errno::set_errno(errno::Errno(0));
    let mem = pool.malloc(1 << (pool.max_order() + 1));
    assert!(mem.is_err());
    assert_eq!(mem, Err(BuddyError::NoMemory));
    assert_eq!(errno::errno().0, ENOMEM);
    check_buddy_pool_full(&pool);
}
