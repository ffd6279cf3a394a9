use guest_bridge::memory::{copy_bytes, dealloc, same_bytes, LinearBuffer, LinearMemory};

fn overlap(a: u32, a_len: u32, b: u32, b_len: u32) -> bool {
    let (a, a_len, b, b_len) = (a as u64, a_len as u64, b as u64, b_len as u64);
    a < b + b_len && b < a + a_len
}

#[test]
fn new_memory_is_empty() {
    let memory = LinearMemory::new();
    assert_eq!(memory.live(), 0);
    assert_eq!(memory.remaining(), u32::MAX);
}

#[test]
fn reserved_regions_do_not_overlap() {
    let mut memory = LinearMemory::new();
    let sizes: [u32; 6] = [1, 7, 500, 3, 64, 1];
    let mut held: Vec<(u32, u32)> = Vec::new();
    for &size in sizes.iter() {
        let address = memory.reserve(size);
        for &(other, other_size) in held.iter() {
            assert!(!overlap(address, size, other, other_size));
        }
        held.push((address, size));
    }
    assert_eq!(memory.live(), 6);
    assert_eq!(memory.remaining(), u32::MAX - 576);
}

#[test]
fn reserve_after_release_keeps_clear_of_live_regions() {
    let mut memory = LinearMemory::new();
    let first = memory.reserve(16);
    let second = memory.reserve(16);
    let third = memory.reserve(16);
    memory.release(second, 16);
    assert_eq!(memory.live(), 2);
    let fourth = memory.reserve(16);
    assert!(!overlap(fourth, 16, first, 16));
    assert!(!overlap(fourth, 16, third, 16));
    let fifth = memory.reserve(40);
    assert!(!overlap(fifth, 40, first, 16));
    assert!(!overlap(fifth, 40, third, 16));
    assert!(!overlap(fifth, 40, fourth, 16));
    assert_eq!(memory.live(), 4);
}

#[test]
fn released_top_is_reserved_again() {
    let mut memory = LinearMemory::new();
    let low = memory.reserve(8);
    let high = memory.reserve(8);
    assert_eq!(memory.top(), 16);
    memory.release(high, 8);
    assert_eq!(memory.top(), 8);
    assert_eq!(memory.reserve(4), 8);
    memory.release(low, 8);
    assert_eq!(memory.top(), 12);
    assert_eq!(memory.reserve(4), 12);
    memory.release(12, 4);
    memory.release(8, 4);
    assert_eq!(memory.top(), 0);
    assert_eq!(memory.remaining(), u32::MAX);
    assert_eq!(memory.reserve(1), 0);
}

#[test]
fn gap_below_a_live_region_is_not_filled() {
    let mut memory = LinearMemory::new();
    let low = memory.reserve(8);
    let high = memory.reserve(8);
    memory.release(low, 8);
    assert_eq!(memory.top(), 16);
    assert_eq!(memory.reserve(2), 16);
    assert_eq!(memory.read(high, 8).len(), 8);
}

#[test]
fn reserve_starts_at_the_top() {
    let mut memory = LinearMemory::new();
    assert_eq!(memory.reserve(10), 0);
    assert_eq!(memory.reserve(5), 10);
    assert_eq!(memory.reserve(0), 15);
    assert_eq!(memory.reserve(1), 15);
    assert_eq!(memory.remaining(), u32::MAX - 16);
}

#[test]
fn empty_buffer_takes_no_memory() {
    let mut memory = LinearMemory::new();
    let address = memory.reserve(0);
    assert_eq!(memory.live(), 0);
    assert_eq!(memory.read(address, 0), Vec::<u8>::new());
    memory.release(address, 0);
    assert_eq!(memory.live(), 0);
    assert_eq!(memory.remaining(), u32::MAX);
}

#[test]
fn write_then_read_gives_the_bytes() {
    let mut memory = LinearMemory::new();
    let left = memory.reserve(3);
    let right = memory.reserve(2);
    memory.write(left, &vec![1, 2, 3]);
    memory.write(right, &vec![9, 8]);
    assert_eq!(memory.read(left, 3), vec![1, 2, 3]);
    assert_eq!(memory.read(right, 2), vec![9, 8]);
    memory.write(left, &vec![4, 5, 6]);
    assert_eq!(memory.read(left, 3), vec![4, 5, 6]);
    assert_eq!(memory.read(right, 2), vec![9, 8]);
}

#[test]
fn store_reserves_and_fills() {
    let mut memory = LinearMemory::new();
    let buffer = memory.store(&b"hello".to_vec());
    assert_eq!(buffer.address, 0);
    assert_eq!(buffer.length, 5);
    assert_eq!(memory.live(), 1);
    assert_eq!(memory.read(buffer.address, buffer.length), b"hello".to_vec());
    let next = memory.store(&b"!".to_vec());
    assert_eq!(next.address, 5);
    assert_eq!(next.length, 1);
    assert_eq!(memory.read(buffer.address, buffer.length), b"hello".to_vec());
    assert_eq!(memory.read(next.address, next.length), b"!".to_vec());
}

#[test]
fn release_drops_only_the_named_region() {
    let mut memory = LinearMemory::new();
    let a = memory.store(&vec![1]);
    let b = memory.store(&vec![2, 2]);
    let c = memory.store(&vec![3, 3, 3]);
    memory.release(b.address, b.length);
    assert_eq!(memory.live(), 2);
    assert_eq!(memory.read(a.address, a.length), vec![1]);
    assert_eq!(memory.read(c.address, c.length), vec![3, 3, 3]);
    dealloc(&mut memory, a.address, a.length);
    assert_eq!(memory.live(), 1);
    assert_eq!(memory.read(c.address, c.length), vec![3, 3, 3]);
    dealloc(&mut memory, c.address, c.length);
    assert_eq!(memory.live(), 0);
}

#[test]
fn raw_parts_go_in_and_out() {
    let buffer = LinearBuffer::from_raw_parts(12, 34);
    assert_eq!(buffer.address, 12);
    assert_eq!(buffer.length, 34);
    assert_eq!(buffer.into_raw_parts(), (12, 34));
}

#[test]
fn byte_helpers() {
    assert_eq!(copy_bytes(&vec![1, 2, 3]), vec![1, 2, 3]);
    assert_eq!(copy_bytes(&Vec::new()), Vec::<u8>::new());
    assert!(same_bytes(&vec![1, 2], &vec![1, 2]));
    assert!(!same_bytes(&vec![1, 2], &vec![1, 3]));
    assert!(!same_bytes(&vec![1, 2], &vec![1]));
    assert!(same_bytes(&Vec::new(), &Vec::new()));
}
