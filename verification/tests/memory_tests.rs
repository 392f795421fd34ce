use parquet::memory::{
    Buffer, ByteBuffer, ByteBufferPtr, ImmutableByteBuffer, MemoryPool, MutableBuffer,
};
use std::rc::Rc;

#[test]
fn test_byte_buffer_new_and_resize() {
    let mut buffer = ByteBuffer::new(4);
    assert_eq!(buffer.size(), 4);
    assert!(buffer.capacity() >= 4);
    assert_eq!(buffer.data(), &[0, 0, 0, 0]);

    buffer.put_byte(1, 0xAB);
    assert_eq!(buffer.data(), &[0, 0xAB, 0, 0]);

    buffer.resize(6).expect("resize() should return OK");
    assert_eq!(buffer.size(), 6);
    assert_eq!(buffer.data(), &[0, 0xAB, 0, 0, 0, 0]);

    buffer.resize(2).expect("resize() should return OK");
    assert_eq!(buffer.data(), &[0, 0xAB]);

    buffer.set_data(vec![1, 2, 3]);
    assert_eq!(buffer.data(), &[1, 2, 3]);
}

#[test]
fn test_byte_buffer_to_immutable() {
    let mut buffer = ByteBuffer::new(3);
    buffer.set_data(vec![9, 8, 7]);
    let frozen = buffer.to_immutable();
    assert_eq!(frozen.size(), 3);
    assert_eq!(frozen.capacity(), 3);
    assert_eq!(frozen.data(), &[9, 8, 7]);
}

#[test]
fn test_immutable_byte_buffer_shared() {
    let backing = Rc::new(vec![1u8, 2, 3, 4]);
    let a = ImmutableByteBuffer::new(backing.clone());
    let b = ImmutableByteBuffer::new(backing);
    assert_eq!(a.data(), b.data());
    assert_eq!(a.size(), 4);
    assert_eq!(a.capacity(), 4);
}

#[test]
fn test_byte_buffer_ptr_views() {
    let ptr = ByteBufferPtr::new(vec![10, 11, 12, 13, 14]);
    assert_eq!(ptr.len(), 5);
    assert_eq!(ptr.as_ref(), [10, 11, 12, 13, 14]);
    assert_eq!(ptr.get(2), 12);

    let tail = ptr.start_from(2);
    assert_eq!(tail.len(), 3);
    assert_eq!(tail.as_ref(), [12, 13, 14]);

    let again = tail.start_from(1);
    assert_eq!(again.as_ref(), [13, 14]);

    let whole = ptr.all();
    assert_eq!(whole.as_ref(), [10, 11, 12, 13, 14]);
}

#[test]
fn test_memory_pool_acquire_and_consume() {
    let mut pool = MemoryPool::new();
    assert_eq!(pool.cur_allocated(), 0);
    assert_eq!(pool.max_allocated(), 0);

    let h0 = pool.acquire(100);
    assert_eq!(h0, 0);
    assert_eq!(pool.buffer(h0).len(), 100);
    assert!(pool.buffer(h0).iter().all(|b| *b == 0));
    assert!(pool.cur_allocated() >= 100);

    let after_first = pool.cur_allocated();
    let h1 = pool.consume(vec![1, 2, 3, 4]);
    assert_eq!(h1, 1);
    assert_eq!(pool.buffer(h1), &vec![1, 2, 3, 4]);
    assert!(pool.cur_allocated() >= after_first + 4);
    // the peak tracks the current count, which never decreases
    assert_eq!(pool.max_allocated(), pool.cur_allocated());
    // earlier handles stay valid after later allocations
    assert_eq!(pool.buffer(h0).len(), 100);
}
