use luos_memory_sandbox::AllocErr;
use luos_memory_sandbox::LuosAlloc;
use luos_memory_sandbox::LuosGlobalAlloc;
use luos_memory_sandbox::LuosMemory;
use luos_memory_sandbox::LuosMustReplaceAlloc;

#[test]
fn my_alloc_alloc_record() {
    let mut a = LuosAlloc::new(LuosMemory::new());
    assert_eq!(Some(0), a.get_unused_begin(0));
    assert_eq!(Some(1), a.get_unused_begin(10));
    assert_eq!(Some(1), a.get_unused_begin(32768));
    assert_eq!(Some(1), a.get_unused_begin(65534));
    assert_eq!(None, a.get_unused_begin(65535));
    a.record_alloc_memory(3, 5);
    assert_eq!(Some(0), a.get_unused_begin(0));
    assert_eq!(Some(8), a.get_unused_begin(10));
    assert_eq!(Some(8), a.get_unused_begin(65527));
    assert_eq!(None, a.get_unused_begin(65528));
    a.record_alloc_memory(11, 2);
    assert_eq!(Some(8), a.get_unused_begin(3));
    assert_eq!(Some(13), a.get_unused_begin(4));
    let mut a = LuosAlloc::new(LuosMemory::new());
    a.record_alloc_memory(1, 65533);
    assert_eq!(Some(0), a.get_unused_begin(0));
    assert_eq!(Some(65534), a.get_unused_begin(1));
    assert_eq!(None, a.get_unused_begin(2));
}

#[test]
fn my_alloc_dealloc_record() {
    let mut a = LuosAlloc::new(LuosMemory::new());
    a.record_alloc_memory(3, 5);
    assert_eq!(Some(1), a.get_unused_begin(1));
    assert_eq!(Some(8), a.get_unused_begin(3));
    assert_eq!(None, a.get_unused_begin(65528));
    a.record_dealloc_memory(3, 5);
    assert_eq!(Some(1), a.get_unused_begin(1));
    assert_eq!(Some(1), a.get_unused_begin(3));
    assert_eq!(Some(1), a.get_unused_begin(65534));
    a.record_alloc_memory(1, 10);
    a.record_dealloc_memory(1, 10);
    assert_eq!(Some(1), a.get_unused_begin(1));
    assert_eq!(Some(1), a.get_unused_begin(3));
}

#[test]
fn my_alloc_alloc() {
    let mut a = LuosAlloc::new(LuosMemory::new());
    let ptr = a.allocate(10, 1).unwrap();
    let written: u128 = 0x1f2f3f4f5f6f7f8f;
    let bytes = written.to_le_bytes();
    for (k, b) in bytes.iter().enumerate() {
        a.write_byte(ptr + k, *b);
    }
    a.deallocate(ptr, 10, 1);
    let ptr2 = a.allocate_zeroed(10, 1).unwrap();
    assert_eq!(ptr2, ptr);
    let mut read = [0u8; 16];
    for k in 0..16 {
        read[k] = a.read_byte(ptr + k);
    }
    assert_eq!(u128::from_le_bytes(read), 0);
    a.deallocate(ptr2, 10, 1);
    assert_eq!(Some(0), a.get_unused_begin(0));
    assert_eq!(Some(1), a.get_unused_begin(10));
    assert_eq!(Some(1), a.get_unused_begin(32768));
    assert_eq!(Some(1), a.get_unused_begin(65534));
    assert_eq!(None, a.get_unused_begin(65535));
}

#[test]
fn my_alloc_inner() {
    let mut a = LuosAlloc::new(LuosMemory::new());
    {
        let ptr = a.allocate(16, 1).unwrap();
        let written: u128 = 0x1f2f3f4f5f6f7f8f9fafbfcfdfefff;
        let bytes = written.to_le_bytes();
        for (k, b) in bytes.iter().enumerate() {
            a.write_byte(ptr + k, *b);
        }
        assert_eq!(a.inner(), &bytes[..]);
        a.deallocate(ptr, 16, 1);
    }
    {
        let ptr = a.allocate(10, 1).unwrap();
        let bytes: [u8; 10] = [10, 9, 8, 7, 6, 5, 4, 3, 2, 1];
        for (k, b) in bytes.iter().enumerate() {
            a.write_byte(ptr + k, *b);
        }
        assert_eq!(a.inner(), &[10u8, 9, 8, 7, 6, 5, 4, 3, 2, 1][..]);
        a.deallocate(ptr, 10, 1);
    }
}

#[test]
fn must_replace_logic() {
    let mut a = LuosAlloc::new(LuosMemory::new());
    {
        let ptr1 = a.allocate(8, 4).expect("Alloc ptr1");
        let ptr2 = a.reallocate(ptr1, 8, 8, 4).expect("Alloc ptr2");
        assert_eq!(ptr1, ptr2);
    }
    let mut a = LuosMustReplaceAlloc::new(LuosMemory::new());
    {
        let ptr1 = a.allocate(8, 4).expect("Alloc ptr1");
        let ptr2 = a.reallocate(ptr1, 8, 8, 4).expect("Alloc ptr2");
        assert_ne!(ptr1, ptr2);
    }
}

#[test]
fn fresh_tracker_capacity_ceiling() {
    let mut a = LuosAlloc::new(LuosMemory::new());
    assert_eq!(Ok(1), a.allocate(65534, 1));
    a.deallocate(1, 65534, 1);
    assert_eq!(Err(AllocErr), a.allocate(65535, 1));
    assert_eq!(Ok(1), a.allocate(65534, 1));
}

#[test]
fn alloc_dealloc_restores_find_results() {
    let mut a = LuosAlloc::new(LuosMemory::new());
    assert_eq!(Ok(1), a.allocate(4, 1));
    assert_eq!(Ok(5), a.allocate(6, 1));
    a.deallocate(1, 4, 1);
    // free runs: [1, 4] and [11, 65534]
    let before: Vec<Option<usize>> =
        [1, 2, 3, 4, 5, 6, 65524, 65525].iter().map(|&n| a.get_unused_begin(n)).collect();
    assert_eq!(
        before,
        vec![Some(1), Some(1), Some(1), Some(1), Some(11), Some(11), Some(11), None]
    );
    let ptr = a.allocate(3, 1).unwrap();
    assert_eq!(1, ptr);
    a.deallocate(ptr, 3, 1);
    let after: Vec<Option<usize>> =
        [1, 2, 3, 4, 5, 6, 65524, 65525].iter().map(|&n| a.get_unused_begin(n)).collect();
    assert_eq!(before, after);
}

#[test]
fn first_fit_prefers_leftmost_run() {
    let mut a = LuosAlloc::new(LuosMemory::new());
    assert_eq!(Ok(1), a.allocate(5, 1));
    assert_eq!(Ok(6), a.allocate(1, 1));
    assert_eq!(Ok(7), a.allocate(3, 1));
    assert_eq!(Ok(10), a.allocate(1, 1));
    a.deallocate(1, 5, 1);
    a.deallocate(7, 3, 1);
    // adjacent free runs of lengths 5 (at 1) and 3 (at 7); the length-3 run
    // is an exact fit, yet the request is served from the front of the
    // leftmost long-enough run
    assert_eq!(Ok(1), a.allocate(3, 1));
}

#[test]
fn split_blocks_remerge_in_either_order() {
    // one contiguous free region of length 7 at offset 3, bounded by
    // allocated blocks on both sides
    let setup = || {
        let mut a = LuosAlloc::new(LuosMemory::new());
        assert_eq!(Ok(1), a.allocate(2, 1));
        assert_eq!(Ok(3), a.allocate(7, 1));
        assert_eq!(Ok(10), a.allocate(1, 1));
        a.deallocate(3, 7, 1);
        a
    };
    let mut a = setup();
    assert_eq!(Ok(3), a.allocate(5, 1));
    assert_eq!(Ok(8), a.allocate(2, 1));
    a.deallocate(3, 5, 1);
    a.deallocate(8, 2, 1);
    assert_eq!(Some(3), a.get_unused_begin(7));
    assert_eq!(Some(11), a.get_unused_begin(8));
    let mut a = setup();
    assert_eq!(Ok(3), a.allocate(5, 1));
    assert_eq!(Ok(8), a.allocate(2, 1));
    a.deallocate(8, 2, 1);
    a.deallocate(3, 5, 1);
    assert_eq!(Some(3), a.get_unused_begin(7));
    assert_eq!(Some(11), a.get_unused_begin(8));
}

#[test]
fn alloc_zeroed_clears_previous_contents() {
    let mut a = LuosAlloc::new(LuosMemory::new_filled_with(0xAB));
    let ptr = a.allocate(6, 1).unwrap();
    assert_eq!(1, ptr);
    for k in 0..6 {
        a.write_byte(ptr + k, 0xEE);
    }
    a.deallocate(ptr, 6, 1);
    let ptr2 = a.allocate_zeroed(6, 1).unwrap();
    assert_eq!(ptr, ptr2);
    for k in 0..6 {
        assert_eq!(0, a.read_byte(ptr2 + k));
    }
    // the byte just past the block keeps the poison fill
    assert_eq!(0xAB, a.read_byte(ptr2 + 6));
}

#[test]
fn realloc_grows_in_place_when_following_space_fits() {
    let mut a = LuosAlloc::new(LuosMemory::new());
    let ptr = a.allocate(8, 1).unwrap();
    assert_eq!(1, ptr);
    // the bytes just past the block are free and sufficient, and no earlier
    // run fits the extra span: the offset is unchanged
    assert_eq!(Ok(1), a.reallocate(ptr, 8, 16, 1));
    assert_eq!(Some(17), a.get_unused_begin(1));
}

#[test]
fn realloc_moves_when_extra_span_is_found_elsewhere() {
    let mut a = LuosAlloc::new(LuosMemory::new());
    assert_eq!(Ok(1), a.allocate(4, 1));
    assert_eq!(Ok(5), a.allocate(8, 1));
    a.deallocate(1, 4, 1);
    // the extra 2 bytes are found in the earlier run at offset 1, not just
    // past the block, so the whole block moves
    assert_eq!(Ok(1), a.reallocate(5, 8, 10, 1));
}

#[test]
fn realloc_merges_neighbours_when_no_extra_run_exists() {
    let mut a = LuosAlloc::new(LuosMemory::new());
    assert_eq!(Ok(1), a.allocate(1, 1));
    assert_eq!(Ok(2), a.allocate(5, 1));
    assert_eq!(Ok(7), a.allocate(1, 1));
    assert_eq!(Ok(8), a.allocate(65527, 1));
    a.deallocate(1, 1, 1);
    a.deallocate(7, 1, 1);
    // the only free space is a one-byte gap on each side of the block, so
    // the search for the extra 2 bytes finds nothing
    assert_eq!(None, a.get_unused_begin(2));
    // the move path is still owed: freeing the block merges it with both
    // gaps into one run of 7, which serves the request at the old offset's
    // left neighbour
    assert_eq!(Ok(1), a.reallocate(2, 5, 7, 1));
}

#[test]
fn realloc_failure_after_move_leaves_block_freed() {
    let mut a = LuosAlloc::new(LuosMemory::new());
    assert_eq!(Ok(1), a.allocate(1, 1));
    assert_eq!(Ok(2), a.allocate(5, 1));
    assert_eq!(Ok(7), a.allocate(1, 1));
    assert_eq!(Ok(8), a.allocate(65527, 1));
    a.deallocate(1, 1, 1);
    a.deallocate(7, 1, 1);
    // no run holds the extra 4 bytes, and even the merged run of 7 cannot
    // hold 9: the resize fails, after the old block is already freed
    assert_eq!(Err(AllocErr), a.reallocate(2, 5, 9, 1));
    assert_eq!(Some(1), a.get_unused_begin(7));
    assert_eq!(None, a.get_unused_begin(8));
}

#[test]
fn must_replace_realloc_always_moves() {
    let mut a = LuosMustReplaceAlloc::new(LuosMemory::new());
    let ptr = a.allocate(8, 1).unwrap();
    assert_eq!(1, ptr);
    // in-place growth would keep offset 1; the fault-injection variant
    // refuses it even though the following bytes are free and sufficient
    let moved = a.reallocate(ptr, 8, 16, 1).unwrap();
    assert_ne!(ptr, moved);
    assert_eq!(9, moved);
}

#[test]
fn first_fit_walkthrough() {
    let mut a = LuosAlloc::new(LuosMemory::new());
    assert_eq!(Ok(1), a.allocate(10, 1));
    assert_eq!(Ok(11), a.allocate(5, 1));
    a.deallocate(1, 10, 1);
    // offsets 1..10 are one free run of length 10 again
    assert_eq!(Some(1), a.get_unused_begin(10));
    assert_eq!(Some(16), a.get_unused_begin(11));
    assert_eq!(Ok(1), a.allocate(8, 1));
    // the reopened run keeps 2 bytes at offset 9, and the next free run
    // starts at offset 16: counters restart there, so a request for 3 bytes
    // is served at 16
    assert_eq!(Some(9), a.get_unused_begin(2));
    assert_eq!(Ok(16), a.allocate(3, 1));
}

#[test]
fn global_alloc_owns_one_allocator() {
    let mut g = LuosGlobalAlloc::new(LuosMemory::new());
    let ptr = g.allocate(12, 1).unwrap();
    assert_eq!(1, ptr);
    let ptr2 = g.allocate_zeroed(4, 1).unwrap();
    assert_eq!(13, ptr2);
    g.deallocate(ptr, 12, 1);
    assert_eq!(Ok(1), g.reallocate(ptr2, 4, 6, 1));
    g.deallocate(1, 6, 1);
    drop(g);
}
