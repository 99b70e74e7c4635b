use rand::prelude::StdRng;
use rand::{Rng, SeedableRng};
use skiparena::arena::{Arena, ALIGNMENT};
use std::cmp;

#[test]
fn test_arena_empty() {
    let _arena = Arena::new();
}

#[test]
fn default_arena_has_no_usage() {
    let arena = Arena::default();
    assert_eq!(arena.memory_usage(), 0);
}

#[test]
fn test_arena_simple() {
    let mut allocated = Vec::new();
    let mut arena = Arena::new();
    let n = 100000;
    let mut bytes = 0;
    let mut rng = StdRng::seed_from_u64(301);

    for i in 0..n {
        let s = if i % (n / 10) == 0 {
            i
        } else if rng.gen_bool(1.0 / 4000.0) {
            rng.gen_range(0..6000)
        } else if rng.gen_bool(0.1) {
            rng.gen_range(0..100)
        } else {
            rng.gen_range(0..20)
        };

        let s = cmp::max(s, 1); // The arena disallows size 0 allocations.

        let r = if rng.gen_bool(0.1) {
            arena.allocate_aligned(s)
        } else {
            arena.allocate(s)
        };

        for b in 0..s {
            // Fill the "i"th allocation with a known bit pattern
            arena.write_byte(r, b, (i % 256) as u8);
        }

        bytes += s;
        allocated.push((s, r));
        assert!(arena.memory_usage() >= bytes);
        if i > n / 10 {
            assert!(arena.memory_usage() <= (bytes as f64 * 1.10) as usize);
        }
    }

    for (i, &(num_bytes, p)) in allocated.iter().enumerate() {
        for b in 0..num_bytes {
            // Check the "i"th allocation for the known bit pattern
            assert_eq!((arena.read_byte(p, b) as i32) & 0xff, i as i32 % 256);
        }
    }
}

#[test]
fn aligned_offsets_are_multiples_of_the_quantum() {
    let mut arena = Arena::new();
    for i in 0..200 {
        let _odd = arena.allocate(1 + (i % 7));
        let r = arena.allocate_aligned(1 + (i % 23));
        assert_eq!(r.offset % ALIGNMENT, 0);
    }
}

#[test]
fn usage_dominates_requested_bytes() {
    let mut arena = Arena::new();
    let mut requested = 0;
    for i in 1..500 {
        let s = 1 + (i * 37) % 1500;
        let _ = arena.allocate(s);
        requested += s;
        assert!(arena.memory_usage() >= requested);
    }
}

#[test]
fn usage_counter_never_decreases() {
    let mut arena = Arena::new();
    let mut last = arena.memory_usage();
    for i in 0..2000 {
        let _ = arena.allocate(1 + (i % 50));
        let now = arena.memory_usage();
        assert!(now >= last);
        last = now;
    }
}

#[test]
fn writes_to_one_allocation_leave_others_unchanged() {
    let mut arena = Arena::new();
    let a = arena.allocate(64);
    let b = arena.allocate(64);
    let big = arena.allocate(2000); // dedicated block
    for i in 0..64 {
        arena.write_byte(a, i, 0xAA);
        arena.write_byte(b, i, 0x55);
    }
    for i in 0..2000 {
        arena.write_byte(big, i, 7);
    }
    // overwrite b and big; a must keep its pattern
    for i in 0..64 {
        arena.write_byte(b, i, 0xFF);
    }
    for i in 0..2000 {
        arena.write_byte(big, i, 9);
    }
    for i in 0..64 {
        assert_eq!(arena.read_byte(a, i), 0xAA);
        assert_eq!(arena.read_byte(b, i), 0xFF);
    }
    for i in 0..2000 {
        assert_eq!(arena.read_byte(big, i), 9);
    }
}

#[test]
fn usage_counter_grows_per_block_only() {
    let mut arena = Arena::new();
    let _ = arena.allocate(100); // fresh pool block
    assert_eq!(arena.memory_usage(), 4096 + 8);
    let _ = arena.allocate(50); // bumped: counter unchanged
    assert_eq!(arena.memory_usage(), 4104);
    let _ = arena.allocate(3950); // dedicated block of its own size
    assert_eq!(arena.memory_usage(), 4104 + 3950 + 8);
    let _ = arena.allocate(10); // bumped from the preserved pool block
    assert_eq!(arena.memory_usage(), 8062);
}

#[test]
fn large_request_gets_a_dedicated_block_and_preserves_the_bump_block() {
    let mut arena = Arena::new();
    // Fill part of a fresh pool block.
    let first = arena.allocate(100);
    // A request too big for the block's remainder gets its own block and
    // must not consume the remaining pool space.
    let big = arena.allocate(4000);
    assert_eq!(big.offset, 0);
    assert_ne!(big.block, first.block);
    // The next small request still comes from the old pool block.
    let second = arena.allocate(100);
    assert_eq!(second.block, first.block);
    assert_eq!(second.offset, first.offset + 100);
}
