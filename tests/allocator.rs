use bin_alloc::bin::{Allocator, NUM_BINS};
use bin_alloc::layout::{transform_layout, AllocError};
use bin_alloc::util::{align_down, align_up, is_power_of_two, log2};

fn overlaps(a1: usize, s1: usize, a2: usize, s2: usize) -> bool {
    !(a1 + s1 <= a2 || a2 + s2 <= a1)
}

#[test]
fn align_up_rounds_to_next_multiple() {
    assert_eq!(align_up(0, 8), 0);
    assert_eq!(align_up(13, 8), 16);
    assert_eq!(align_up(16, 8), 16);
    assert_eq!(align_up(17, 16), 32);
    assert_eq!(align_up(5, 1), 5);
}

#[test]
fn align_down_rounds_to_previous_multiple() {
    assert_eq!(align_down(0, 8), 0);
    assert_eq!(align_down(13, 8), 8);
    assert_eq!(align_down(16, 8), 16);
    assert_eq!(align_down(31, 16), 16);
    assert_eq!(align_down(usize::MAX, 1 << 12), usize::MAX - 4095);
}

#[test]
fn power_of_two_check() {
    assert!(!is_power_of_two(0));
    assert!(is_power_of_two(1));
    assert!(is_power_of_two(2));
    assert!(!is_power_of_two(3));
    assert!(is_power_of_two(64));
    assert!(!is_power_of_two(96));
    assert!(is_power_of_two(1 << 63));
    assert!(!is_power_of_two(usize::MAX));
}

#[test]
fn log2_of_powers_of_two() {
    assert_eq!(log2(1), 0);
    assert_eq!(log2(8), 3);
    assert_eq!(log2(1 << 20), 20);
    assert_eq!(log2(1 << 63), 63);
}

#[test]
fn normalize_exact_values() {
    assert_eq!(transform_layout(1, 1), Ok(8));
    assert_eq!(transform_layout(8, 8), Ok(8));
    assert_eq!(transform_layout(9, 8), Ok(16));
    assert_eq!(transform_layout(8, 64), Ok(64));
    assert_eq!(transform_layout(100, 4), Ok(128));
    assert_eq!(transform_layout(1 << 32, 1), Ok(1 << 32));
}

#[test]
fn normalize_rejects_bad_layouts() {
    assert_eq!(transform_layout(0, 8), Err(AllocError::InvalidLayout));
    assert_eq!(transform_layout(8, 3), Err(AllocError::InvalidLayout));
    assert_eq!(transform_layout(8, 0), Err(AllocError::InvalidLayout));
    assert_eq!(transform_layout((1 << 32) + 1, 1), Err(AllocError::SizeTooLarge));
    assert_eq!(transform_layout(8, 1 << 33), Err(AllocError::SizeTooLarge));
    assert_eq!(transform_layout(usize::MAX, 1), Err(AllocError::SizeTooLarge));
}

#[test]
fn partition_of_sixty_four_bytes() {
    let a = Allocator::new(0, 64);
    assert_eq!(a.start(), 0);
    assert_eq!(a.end(), 64);
    assert_eq!(a.bin_blocks(0), vec![0]);
    assert_eq!(a.bin_blocks(1), vec![16]);
    assert_eq!(a.bin_blocks(2), vec![32]);
    for k in 3..NUM_BINS {
        assert!(a.bin_blocks(k).is_empty());
    }
}

#[test]
fn scenario_region_of_sixty_four_bytes() {
    let mut a = Allocator::new(0, 64);
    assert_eq!(a.allocate(8, 8), Ok(0));
    // bin 0 is empty now: the 16-byte block at 16 is split in two halves
    let second = a.allocate(8, 8).unwrap();
    assert_eq!(second, 16);
    assert!(second >= 16 && second + 8 <= 32);
    assert_eq!(a.bin_blocks(0), vec![24]);
    assert!(a.bin_blocks(1).is_empty());
    assert_eq!(a.bin_blocks(2), vec![32]);
}

#[test]
fn start_is_rounded_up_to_eight() {
    let a = Allocator::new(3, 100);
    assert_eq!(a.start(), 8);
    assert_eq!(a.bin_blocks(0), vec![8]);
    assert_eq!(a.bin_blocks(1), vec![16]);
    assert_eq!(a.bin_blocks(2), vec![32]);
    assert!(a.bin_blocks(3).is_empty());
}

#[test]
fn partition_continues_with_sixteen_mib_blocks() {
    let mib16: usize = 1 << 24;
    let a = Allocator::new(0, 3 * mib16);
    assert_eq!(a.bin_blocks(0), vec![0]);
    for k in 1..21 {
        assert_eq!(a.bin_blocks(k), vec![1usize << (k + 3)]);
    }
    assert_eq!(a.bin_blocks(21), vec![mib16, 2 * mib16]);
    for k in 22..NUM_BINS {
        assert!(a.bin_blocks(k).is_empty());
    }
}

#[test]
fn empty_region_holds_nothing() {
    let mut a = Allocator::new(64, 64);
    for k in 0..NUM_BINS {
        assert!(a.bin_blocks(k).is_empty());
    }
    assert_eq!(a.allocate(8, 8), Err(AllocError::Exhausted));
}

#[test]
fn zero_size_fails() {
    let mut a = Allocator::new(0x1000, 0x2000);
    assert_eq!(a.allocate(0, 8), Err(AllocError::InvalidLayout));
}

#[test]
fn non_power_of_two_alignment_fails() {
    let mut a = Allocator::new(0x1000, 0x2000);
    assert_eq!(a.allocate(8, 3), Err(AllocError::InvalidLayout));
}

#[test]
fn too_large_request_fails() {
    let mut a = Allocator::new(0x1000, 0x2000);
    assert_eq!(a.allocate((1 << 32) + 1, 8), Err(AllocError::SizeTooLarge));
    assert_eq!(a.allocate(1 << 32, 8), Err(AllocError::Exhausted));
}

#[test]
fn failed_allocation_changes_nothing() {
    let mut a = Allocator::new(0x1000, 0x1100);
    let before: Vec<Vec<usize>> = (0..NUM_BINS).map(|k| a.bin_blocks(k)).collect();
    assert_eq!(a.allocate(0x1000, 8), Err(AllocError::Exhausted));
    let after: Vec<Vec<usize>> = (0..NUM_BINS).map(|k| a.bin_blocks(k)).collect();
    assert_eq!(before, after);
}

#[test]
fn allocations_are_aligned() {
    let mut a = Allocator::new(0x1000, 0x1000 + (1 << 16));
    let requests = [(1usize, 1usize), (5, 64), (24, 8), (100, 4), (8, 256), (3000, 16), (9, 2)];
    for &(size, align) in requests.iter() {
        let n = transform_layout(size, align).unwrap();
        let addr = a.allocate(size, align).unwrap();
        assert_ne!(addr, 0);
        assert_eq!(addr % n, 0);
        assert_eq!(addr % align, 0);
    }
}

#[test]
fn live_blocks_are_disjoint_and_contained() {
    let start: usize = 0x10000;
    let end: usize = start + 0x3000;
    let mut a = Allocator::new(start, end);
    let mut live: Vec<(usize, usize, usize, usize)> = Vec::new();
    let requests = [(8usize, 8usize), (16, 8), (1, 1), (64, 64), (200, 8), (8, 8), (1000, 32), (40, 8)];
    for (i, &(size, align)) in requests.iter().enumerate() {
        let n = transform_layout(size, align).unwrap();
        let addr = a.allocate(size, align).unwrap();
        assert!(addr >= a.start() && addr + n <= a.end());
        live.push((addr, n, size, align));
        if i % 3 == 2 {
            let (addr, _, size, align) = live.remove(0);
            a.deallocate(addr, size, align);
        }
    }
    for i in 0..live.len() {
        for j in (i + 1)..live.len() {
            assert!(!overlaps(live[i].0, live[i].1, live[j].0, live[j].1));
        }
    }
}

#[test]
fn free_then_allocate_returns_same_block() {
    let mut a = Allocator::new(0x1000, 0x2000);
    let first = a.allocate(24, 8).unwrap();
    let before: Vec<Vec<usize>> = (0..NUM_BINS).map(|k| a.bin_blocks(k)).collect();
    a.deallocate(first, 24, 8);
    assert_eq!(a.bin_blocks(2).last(), Some(&first));
    let again = a.allocate(30, 4).unwrap();
    assert_eq!(again, first);
    let after: Vec<Vec<usize>> = (0..NUM_BINS).map(|k| a.bin_blocks(k)).collect();
    assert_eq!(before, after);
}

#[test]
fn freed_blocks_are_not_coalesced() {
    let mut a = Allocator::new(0, 32);
    // bins: 8 at 0, 16 at 16
    let x = a.allocate(8, 8).unwrap();
    let y = a.allocate(8, 8).unwrap();
    let z = a.allocate(8, 8).unwrap();
    assert_eq!((x, y, z), (0, 16, 24));
    a.deallocate(y, 8, 8);
    a.deallocate(z, 8, 8);
    assert_eq!(a.bin_blocks(0), vec![16, 24]);
    assert_eq!(a.allocate(16, 16), Err(AllocError::Exhausted));
}

#[test]
fn exhaust_then_free_one() {
    let mut a = Allocator::new(0x4000, 0x4000 + 128);
    let mut got: Vec<usize> = Vec::new();
    loop {
        match a.allocate(8, 8) {
            Ok(addr) => got.push(addr),
            Err(e) => {
                assert_eq!(e, AllocError::Exhausted);
                break;
            }
        }
    }
    // the partition holds 8 + 16 + 32 + 64 bytes; 8 bytes are lost to alignment
    assert_eq!(got.len(), 120 / 8);
    let mut sorted = got.clone();
    sorted.sort();
    sorted.dedup();
    assert_eq!(sorted.len(), got.len());
    let freed = got[5];
    a.deallocate(freed, 8, 8);
    let bigger: Vec<Vec<usize>> = (1..NUM_BINS).map(|k| a.bin_blocks(k)).collect();
    assert!(bigger.iter().all(|b| b.is_empty()));
    assert_eq!(a.allocate(8, 8), Ok(freed));
    assert_eq!(a.allocate(8, 8), Err(AllocError::Exhausted));
}

#[test]
fn exhaustion_is_reported_not_overcommitted() {
    let start: usize = 0x8000;
    let size: usize = 0x1000;
    let mut a = Allocator::new(start, start + size);
    let mut total: usize = 0;
    while let Ok(addr) = a.allocate(100, 8) {
        assert!(addr >= start && addr + 128 <= start + size);
        total += 128;
    }
    assert!(total <= size);
    assert_eq!(a.allocate(100, 8), Err(AllocError::Exhausted));
}

#[test]
fn reused_block_keeps_its_contents_undefined() {
    // The allocator keeps its lists outside the blocks and never writes into
    // them: freeing and reallocating hands back the same address, and nothing
    // is zeroed on the way.
    let mut a = Allocator::new(0x1000, 0x1000 + 64);
    let mut memory = vec![0u8; 64];
    let addr = a.allocate(16, 8).unwrap();
    for i in 0..16 {
        memory[addr - 0x1000 + i] = 0xAB;
    }
    a.deallocate(addr, 16, 8);
    let again = a.allocate(16, 8).unwrap();
    assert_eq!(again, addr);
    assert!(memory[addr - 0x1000..addr - 0x1000 + 16].iter().all(|&b| b == 0xAB));
}
