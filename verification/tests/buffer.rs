use dashu_int::arch::word::Word;
use dashu_int::buffer::Buffer;
use dashu_int::memory::{add_capacity, MemoryAllocation};

#[test]
fn test_default_capacity() {
    assert_eq!(Buffer::default_capacity(2), 4);
    assert_eq!(Buffer::default_capacity(1000), 1127);
}

#[test]
fn test_max_compact_capacity() {
    assert_eq!(Buffer::max_compact_capacity(2), 6);
    assert_eq!(Buffer::max_compact_capacity(1000), 1254);
}

#[test]
fn test_allocate() {
    let buffer = Buffer::allocate(1000);
    assert_eq!(buffer.len(), 0);
    assert_eq!(buffer.capacity(), Buffer::default_capacity(1000));
}

#[test]
fn test_ensure_capacity() {
    let mut buffer = Buffer::allocate(2);
    buffer.push(7);
    assert_eq!(buffer.capacity(), 4);
    buffer.ensure_capacity(4);
    assert_eq!(buffer.capacity(), 4);
    buffer.ensure_capacity(5);
    assert_eq!(buffer.capacity(), 7);
    assert_eq!(buffer.as_slice(), [7]);
}

#[test]
fn test_shrink() {
    let mut buffer = Buffer::allocate(100);
    buffer.push(7);
    buffer.push(8);
    buffer.push(9);
    buffer.shrink_to_fit();
    assert_eq!(buffer.capacity(), Buffer::default_capacity(3));
    assert_eq!(buffer.as_slice(), [7, 8, 9]);
}

#[test]
fn test_push_pop() {
    let mut buffer = Buffer::allocate(5);
    buffer.push(1);
    buffer.push(2);
    assert_eq!(buffer.as_slice(), [1, 2]);

    buffer.push(0);
    buffer.push(0);
    buffer.pop_zeros();
    assert_eq!(buffer.as_slice(), [1, 2]);
}

#[test]
fn test_extend() {
    let mut buffer = Buffer::allocate(5);
    buffer.push(1);
    let list: [Word; 2] = [2, 3];
    buffer.push_slice(&list);
    assert_eq!(buffer.as_slice(), [1, 2, 3]);
}

#[test]
fn test_push_zeros() {
    let mut buffer = Buffer::allocate(5);
    buffer.push(1);
    buffer.push_zeros(2);
    assert_eq!(buffer.as_slice(), [1, 0, 0]);
}

#[test]
fn test_push_zeros_front() {
    let mut buffer = Buffer::allocate(5);
    buffer.push(1);
    buffer.push_zeros_front(2);
    assert_eq!(buffer.as_slice(), [0, 0, 1]);
}

#[test]
fn test_truncate() {
    let mut buffer = Buffer::allocate(5);
    buffer.push(1);
    buffer.push(2);
    buffer.push(3);
    buffer.truncate(1);
    assert_eq!(buffer.as_slice(), [1]);
}

#[test]
fn test_erase_front() {
    let mut buffer = Buffer::allocate(5);
    buffer.push(1);
    buffer.push(2);
    buffer.push(3);
    buffer.erase_front(2);
    assert_eq!(buffer.as_slice(), [3]);
}

#[test]
fn test_push_resizing() {
    let mut buffer = Buffer::allocate(2);
    for _ in 0..10 {
        buffer.push_resizing(7);
    }
    assert_eq!(buffer.len(), 10);
}

#[test]
fn buffer_copies_and_low_words() {
    let mut buffer = Buffer::allocate(1);
    buffer.clone_from_slice(&[1, 2, 3, 4]);
    assert_eq!(buffer.as_slice(), [1, 2, 3, 4]);
    assert_eq!(buffer.lowest_dword(), (2u128 << 64) | 1);
    buffer.set(0, 9);
    buffer.ensure_capacity_exact(40);
    assert_eq!(buffer.capacity(), 40);
    assert_eq!(buffer.into_words(), vec![9, 2, 3, 4]);
    let empty = Buffer::allocate_exact(0);
    assert_eq!(empty.capacity(), 0);
}

#[test]
fn test_memory() {
    let mut scratchpad = MemoryAllocation::<u32>::new(2);
    let mut memory = scratchpad.memory();
    let (a, mut new_memory) = memory.allocate_slice_fill(1, 3);
    assert_eq!(a, &[3]);
    let (b, _) = new_memory.allocate_slice_fill(1, 4);
    assert_eq!(b, &[4]);
    // Now we can reuse the memory.
    let (c, _) = memory.allocate_slice_copy(&[4, 5]);
    assert_eq!(c, &[4, 5]);
    // Reuse the memory again.
    let (c, rest) = memory.allocate_slice_copy_fill(2, &[4], 7);
    assert_eq!(c, &[4, 7]);
    assert_eq!(rest.capacity(), 0);
}

#[test]
fn test_add_capacity() {
    let capacity = add_capacity(1, 8);
    assert_eq!(capacity, 9);
}

#[test]
fn ensure_capacity_small_requests_grow() {
    let mut buffer = Buffer::allocate_exact(0);
    buffer.ensure_capacity(1);
    assert!(buffer.capacity() >= 1);
    let mut exact = Buffer::allocate_exact(0);
    exact.ensure_capacity_exact(2);
    assert_eq!(exact.capacity(), 2);
    let mut full = Buffer::allocate_exact(1);
    full.push_resizing(5);
    full.push_resizing(6);
    assert_eq!(full.as_slice(), [5, 6]);
}
