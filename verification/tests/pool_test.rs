use bytes::BytesMut;
use kcp_tokio::buffer_pool::{
    buffer_pool_stats, put_buffer_with_capacity, try_get_buffer, try_put_buffer, BufferPool,
    BufferPools,
};

#[test]
fn buffers_come_back_empty() {
    let mut pool = BufferPool::new(2, 1024);
    let mut buf = pool.try_get();
    assert_eq!(pool.stats(), (0, 0));
    assert!(buf.capacity() >= 1024);
    buf.extend_from_slice(b"used");
    pool.try_put(buf);
    assert_eq!(pool.stats(), (0, 1));
    let buf = pool.try_get();
    assert!(buf.is_empty());
    assert_eq!(pool.stats(), (1, 0));
}

#[test]
fn pools_are_bounded() {
    let mut pool = BufferPool::new(2, 1024);
    for _ in 0..5 {
        pool.put_with_capacity(BytesMut::with_capacity(1024), 1024);
    }
    assert_eq!(pool.stats(), (0, 2));
}

#[test]
fn unsuitable_buffers_are_dropped() {
    let mut pool = BufferPool::new(8, 1024);
    pool.put_with_capacity(BytesMut::new(), 511);
    pool.put_with_capacity(BytesMut::new(), 2049);
    assert_eq!(pool.stats(), (0, 0));
    pool.put_with_capacity(BytesMut::new(), 512);
    pool.put_with_capacity(BytesMut::new(), 2048);
    assert_eq!(pool.stats(), (0, 2));
}

#[test]
fn tiers_share_boundaries() {
    let mut pools = BufferPools::new();
    for size in [0, 1024, 1025, 1400, 1401, 8192, 8193, 65536] {
        assert!(try_get_buffer(&mut pools, size).is_empty());
    }
    put_buffer_with_capacity(&mut pools, BytesMut::new(), 1399);
    put_buffer_with_capacity(&mut pools, BytesMut::new(), 2800);
    put_buffer_with_capacity(&mut pools, BytesMut::new(), 16384);
    put_buffer_with_capacity(&mut pools, BytesMut::new(), 65536);
    put_buffer_with_capacity(&mut pools, BytesMut::new(), 131073);
    assert_eq!(
        buffer_pool_stats(&pools),
        vec![("small", 0, 1), ("medium", 0, 1), ("large", 0, 1), ("jumbo", 0, 1)]
    );
    for size in [10, 1100, 5000, 20000] {
        let _ = try_get_buffer(&mut pools, size);
    }
    assert_eq!(
        buffer_pool_stats(&pools),
        vec![("small", 1, 0), ("medium", 1, 0), ("large", 1, 0), ("jumbo", 1, 0)]
    );
    try_put_buffer(&mut pools, BytesMut::with_capacity(1024));
    assert_eq!(buffer_pool_stats(&pools)[0], ("small", 1, 1));
}

#[test]
fn new_buffers_go_back_to_their_tier() {
    let mut pools = BufferPools::new();
    for (row, size) in [1024usize, 1400, 8192, 65536].into_iter().enumerate() {
        let buf = try_get_buffer(&mut pools, size);
        let before = buffer_pool_stats(&pools);
        try_put_buffer(&mut pools, buf);
        let after = buffer_pool_stats(&pools);
        for other in 0..4 {
            let more = if other == row { 1 } else { 0 };
            assert_eq!(after[other].2, before[other].2 + more);
        }
    }
    // The boundaries.
    let mut pools = BufferPools::new();
    put_buffer_with_capacity(&mut pools, BytesMut::new(), 1400);
    put_buffer_with_capacity(&mut pools, BytesMut::new(), 2048);
    assert_eq!(buffer_pool_stats(&pools)[1], ("medium", 0, 2));
    put_buffer_with_capacity(&mut pools, BytesMut::new(), 512);
    assert_eq!(buffer_pool_stats(&pools)[0], ("small", 0, 1));
}
