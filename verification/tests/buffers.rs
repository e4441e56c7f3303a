//! The pool of buffers.

use nirimap::shm::{memory_len, BufferPool, Made};

fn make(_: Option<&u8>, w: u32, h: u32, id: u64) -> Option<Made<u8>> {
    let bytes = memory_len(w, h)?;
    Some(Made { buffer: id as u8, proxy_id: 10 + id as u32, bytes })
}

fn fail(_: Option<&u8>, _: u32, _: u32, _: u64) -> Option<Made<u8>> {
    None
}

fn never(_: Option<&u8>, _: u32, _: u32, _: u64) -> Option<Made<u8>> {
    panic!("no buffer is needed")
}

#[test]
fn at_most_two_buffers_are_kept() {
    let mut pool: BufferPool<u8> = BufferPool::new();
    assert_eq!(pool.acquire(4, 3, make), Some(0));
    assert_eq!(pool.acquire(4, 3, make), Some(1));
    assert_eq!(pool.acquire(4, 3, never), None);
    assert_eq!(pool.len(), 2);
    // What comes back is used again.
    assert!(pool.release(12, (4, 3)).is_empty());
    assert_eq!(pool.acquire(4, 3, never), Some(1));
}

#[test]
fn a_free_buffer_of_another_size_is_replaced() {
    let mut pool: BufferPool<u8> = BufferPool::new();
    assert_eq!(pool.acquire(4, 3, make), Some(0));
    pool.release(11, (4, 3));
    let made = pool.acquire(5, 3, |old: Option<&u8>, w: u32, h: u32, id: u64| {
        assert_eq!((old, w, h, id), (Some(&1), 5, 3, 1));
        make(old, w, h, id)
    });
    assert_eq!(made, Some(0));
    assert_eq!(pool.len(), 1);
}

#[test]
fn a_buffer_that_cannot_be_made_is_not_handed_out() {
    let mut pool: BufferPool<u8> = BufferPool::new();
    assert_eq!(pool.acquire(4, 3, fail), None);
    assert_eq!(pool.len(), 0);
    // Its id is spent.
    assert_eq!(
        pool.acquire(4, 3, |old: Option<&u8>, w: u32, h: u32, id: u64| {
            assert_eq!(id, 2);
            make(old, w, h, id)
        }),
        Some(0)
    );
    pool.release(12, (4, 3));
    assert_eq!(pool.acquire(9, 9, fail), None);
    assert_eq!(pool.acquire(4, 3, never), Some(0));
}

#[test]
fn oversized_buffers_are_given_back() {
    let mut pool: BufferPool<u8> = BufferPool::new();
    pool.acquire(10, 10, make);
    pool.acquire(10, 5, make);
    // In use: they stay.
    assert!(pool.reclaim_oversized((5, 5)).is_empty());
    // Nothing is needed yet: all stay.
    assert!(pool.release(11, (0, 0)).is_empty());
    // Twice as large as needed is fine, more is not.
    let gone = pool.release(12, (5, 5));
    assert_eq!(gone.len(), 1);
    assert_eq!((gone[0].buffer, gone[0].w, gone[0].h, gone[0].bytes), (1, 10, 10, 400));
    assert_eq!(pool.len(), 1);
    assert!(pool.reclaim_oversized((u32::MAX, u32::MAX)).is_empty());
    // A protocol object of no buffer frees nothing.
    assert!(pool.release(99, (5, 5)).is_empty());
}

#[test]
fn frames_and_parts_of_them_are_copied() {
    let mut pool: BufferPool<u8> = BufferPool::new();
    pool.acquire(3, 2, make);
    let frame: Vec<u8> = (1..=24).collect();
    let mut memory = vec![0u8; 24];
    pool.copy_pixels(0, &mut memory, &frame);
    assert_eq!(memory, frame);
    let mut memory = vec![0u8; 24];
    pool.copy_region(0, &mut memory, &frame, 3, 1, 0, 1, 2);
    let mut expected = vec![0u8; 24];
    expected[4..8].copy_from_slice(&frame[4..8]);
    expected[16..20].copy_from_slice(&frame[16..20]);
    assert_eq!(memory, expected);
    // There is no such buffer.
    let mut memory = vec![7u8; 2];
    pool.copy_region(5, &mut memory, &frame, 3, 1, 0, 1, 2);
    assert_eq!(memory, vec![7, 7]);
}

#[test]
fn memory_is_as_large_as_the_pixels() {
    assert_eq!(memory_len(3, 2), Some(24));
    assert_eq!(memory_len(0, 2), Some(0));
    assert_eq!(memory_len(u32::MAX, u32::MAX), None);
}
