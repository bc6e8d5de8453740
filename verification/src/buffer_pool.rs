//! Buffer pool for packet allocation: buffers that have been given back are handed out again.
use crate::buffers;
use crate::metrics;
use bytes::BytesMut;
use crossbeam_queue::ArrayQueue;
use vstd::prelude::*;

verus! {

/// `crossbeam_queue::ArrayQueue`: a bounded queue.
#[verifier::external_type_specification]
#[verifier::external_body]
#[verifier::reject_recursive_types(T)]
pub struct ExArrayQueue<T>(crossbeam_queue::ArrayQueue<T>);

/// What the buffers in a queue hold, from the first to the last.
pub uninterp spec fn queued_in(q: ArrayQueue<BytesMut>) -> Seq<Seq<u8>>;

/// How many buffers a queue takes.
pub uninterp spec fn capacity_of(q: ArrayQueue<BytesMut>) -> nat;

/// The largest queue that is made here, so that its slots fit into memory.
pub open spec fn queue_limit() -> int {
    (usize::MAX / 256) as int
}

/// `ArrayQueue::new`: an empty queue that takes `capacity` buffers.
#[verifier::external_body]
fn new_queue(capacity: usize) -> (r: ArrayQueue<BytesMut>)
    requires
        0 < capacity <= queue_limit(),
    ensures
        queued_in(r).len() == 0,
        capacity_of(r) == capacity,
{
    ArrayQueue::new(capacity)
}

/// `ArrayQueue::push`: puts a buffer at the end, unless the queue is full.
#[verifier::external_body]
fn push(q: &mut ArrayQueue<BytesMut>, buf: BytesMut)
    ensures
        capacity_of(*final(q)) == capacity_of(*old(q)),
        queued_in(*final(q)) == (if queued_in(*old(q)).len() < capacity_of(*old(q)) {
            queued_in(*old(q)).push(buffers::buf_of(buf))
        } else {
            queued_in(*old(q))
        }),
{
    let _ = q.push(buf);
}

/// `ArrayQueue::pop`: takes the first buffer off, if there is one.
#[verifier::external_body]
fn pop(q: &mut ArrayQueue<BytesMut>) -> (r: Option<BytesMut>)
    ensures
        capacity_of(*final(q)) == capacity_of(*old(q)),
        r is Some <==> queued_in(*old(q)).len() > 0,
        r matches Some(buf) ==> buffers::buf_of(buf) == queued_in(*old(q))[0] && queued_in(
            *final(q),
        ) == queued_in(*old(q)).skip(1),
        r is None ==> queued_in(*final(q)) == queued_in(*old(q)),
{
    q.pop()
}

/// `ArrayQueue::len`: how many buffers are in the queue.
#[verifier::external_body]
fn queue_len(q: &ArrayQueue<BytesMut>) -> (r: usize)
    ensures
        r == queued_in(*q).len(),
{
    q.len()
}

/// `BytesMut::capacity`: how many bytes the buffer holds without growing. How much an
/// allocation gave is not stated.
#[verifier::external_body]
fn capacity(buf: &BytesMut) -> (r: usize)
    ensures
        r >= buffers::buf_of(*buf).len(),
{
    buf.capacity()
}

/// Pool of buffers of one size.
pub struct BufferPool {
    pool: ArrayQueue<BytesMut>,
    buffer_size: usize,
    hits: usize,
}

/// What a pool stands for.
#[verifier::ext_equal]
pub struct PoolModel {
    /// What the buffers in the pool hold
    pub buffers: Seq<Seq<u8>>,
    /// How many buffers it takes
    pub max_size: nat,
    /// The size of new buffers
    pub buffer_size: usize,
    /// How many buffers have been handed out again
    pub hits: usize,
}

impl View for BufferPool {
    type V = PoolModel;

    closed spec fn view(&self) -> PoolModel {
        PoolModel {
            buffers: queued_in(self.pool),
            max_size: capacity_of(self.pool),
            buffer_size: self.buffer_size,
            hits: self.hits,
        }
    }
}

impl PoolModel {
    /// What holds of every pool: its buffers are empty, and it is not overfull.
    pub open spec fn wf(self) -> bool {
        &&& forall|i: int|
            0 <= i < self.buffers.len() ==> (#[trigger] self.buffers[i]).len() == 0
        &&& self.buffers.len() <= self.max_size
        &&& self.buffer_size <= buffers::buffer_limit()
    }

    /// A buffer has been handed out.
    pub open spec fn taken(self) -> Self {
        if self.buffers.len() > 0 {
            PoolModel {
                buffers: self.buffers.skip(1),
                hits: metrics::one_more(self.hits),
                ..self
            }
        } else {
            self
        }
    }

    /// The pool takes buffers of this capacity: between half and twice the size of new ones.
    pub open spec fn suits(self, capacity: usize) -> bool {
        self.buffer_size / 2 <= capacity <= self.buffer_size * 2
    }

    /// A buffer of this capacity has been given back.
    pub open spec fn given(self, capacity: usize) -> Self {
        if self.suits(capacity) && self.buffers.len() < self.max_size {
            PoolModel { buffers: self.buffers.push(Seq::empty()), ..self }
        } else {
            self
        }
    }
}

impl BufferPool {
    /// What holds of every pool.
    pub open spec fn wf(&self) -> bool {
        self@.wf()
    }

    /// Create a new buffer pool.
    pub fn new(max_size: usize, buffer_size: usize) -> (r: Self)
        requires
            0 < max_size <= queue_limit(),
            buffer_size <= buffers::buffer_limit(),
        ensures
            r.wf(),
            r@ == (PoolModel {
                buffers: Seq::empty(),
                max_size: max_size as nat,
                buffer_size,
                hits: 0,
            }),
    {
        let r = BufferPool { pool: new_queue(max_size), buffer_size, hits: 0 };
        assert(r@.buffers =~= Seq::empty());
        r
    }

    /// Get a buffer from the pool, or a new one if there is none. It is empty.
    pub fn try_get(&mut self) -> (r: BytesMut)
        requires
            old(self).wf(),
        ensures
            final(self).wf(),
            buffers::buf_of(r).len() == 0,
            final(self)@ == old(self)@.taken(),
    {
        let ghost before = self@.buffers;
        match pop(&mut self.pool) {
            Some(buf) => {
                self.hits = self.hits.wrapping_add(1);
                proof {
                    assert(before[0].len() == 0);
                    assert forall|i: int| 0 <= i < before.skip(1).len() implies (
                    #[trigger] before.skip(1)[i]).len() == 0 by {
                        assert(before[i + 1].len() == 0);
                    }
                }
                buf
            },
            None => BytesMut::with_capacity(self.buffer_size),
        }
    }

    /// Return a buffer of this capacity to the pool.
    pub fn put_with_capacity(&mut self, buf: BytesMut, capacity: usize)
        requires
            old(self).wf(),
        ensures
            final(self).wf(),
            final(self)@ == old(self)@.given(capacity),
    {
        if capacity >= self.buffer_size / 2 && capacity <= self.buffer_size * 2 {
            let mut buf = buf;
            buf.clear();
            let ghost m = self@;
            push(&mut self.pool, buf);
            proof {
                assert(self@ =~= m.given(capacity));
                assert forall|i: int| 0 <= i < self@.buffers.len() implies (
                #[trigger] self@.buffers[i]).len() == 0 by {
                    if i < m.buffers.len() {
                        assert(m.buffers[i].len() == 0);
                    }
                }
            }
        }
    }

    /// Return a buffer to the pool. It is dropped if it does not suit the pool, or if the pool
    /// is full.
    pub fn try_put(&mut self, buf: BytesMut)
        requires
            old(self).wf(),
        ensures
            final(self).wf(),
            exists|capacity: usize|
                capacity >= buffers::buf_of(buf).len() && final(self)@ == #[trigger] old(
                    self,
                )@.given(capacity),
    {
        let n: usize = capacity(&buf);
        self.put_with_capacity(buf, n);
    }

    /// Get pool statistics (hits, current_size).
    pub fn stats(&self) -> (r: (usize, usize))
        ensures
            r.0 == self@.hits,
            r.1 == self@.buffers.len(),
    {
        (self.hits, queue_len(&self.pool))
    }
}

/// The four sizes of buffer.
#[derive(Debug, Clone, Copy, PartialEq, Eq, Structural)]
pub enum Tier {
    /// Up to 1024 bytes
    Small,
    /// Up to 1400 bytes
    Medium,
    /// Up to 8192 bytes
    Large,
    /// More than that
    Jumbo,
}

/// The pools of all sizes.
pub struct BufferPools {
    small: BufferPool,
    medium: BufferPool,
    large: BufferPool,
    jumbo: BufferPool,
}

/// What the pools of all sizes stand for.
#[verifier::ext_equal]
pub struct PoolsModel {
    /// Buffers of 1024 bytes
    pub small: PoolModel,
    /// Buffers of 1400 bytes
    pub medium: PoolModel,
    /// Buffers of 8192 bytes
    pub large: PoolModel,
    /// Buffers of 65536 bytes
    pub jumbo: PoolModel,
}

impl View for BufferPools {
    type V = PoolsModel;

    closed spec fn view(&self) -> PoolsModel {
        PoolsModel {
            small: self.small@,
            medium: self.medium@,
            large: self.large@,
            jumbo: self.jumbo@,
        }
    }
}

/// The size of buffer for data of about this size.
pub open spec fn tier_of_size(size_hint: usize) -> Tier {
    if size_hint <= 1024 {
        Tier::Small
    } else if size_hint <= 1400 {
        Tier::Medium
    } else if size_hint <= 8192 {
        Tier::Large
    } else {
        Tier::Jumbo
    }
}

/// The pool that a buffer of this capacity goes back to: a buffer that is large enough for a tier
/// goes back to that tier, and none goes to a pool that would not take it while another would.
///
/// An allocation may give more than was asked for, so a buffer that was made for the medium pool
/// may hold more than 1400 bytes. Up to 2048 bytes the small pool would take it too, but it goes
/// back to the medium pool, where it came from.
pub open spec fn tier_of_capacity(capacity: usize) -> Tier {
    if capacity < 1400 {
        Tier::Small
    } else if capacity <= 2800 {
        Tier::Medium
    } else if capacity <= 16384 {
        Tier::Large
    } else {
        Tier::Jumbo
    }
}

impl PoolsModel {
    /// The pool of a size.
    pub open spec fn pool(self, tier: Tier) -> PoolModel {
        match tier {
            Tier::Small => self.small,
            Tier::Medium => self.medium,
            Tier::Large => self.large,
            Tier::Jumbo => self.jumbo,
        }
    }

    /// The pool of a size has changed.
    pub open spec fn with(self, tier: Tier, pool: PoolModel) -> Self {
        match tier {
            Tier::Small => PoolsModel { small: pool, ..self },
            Tier::Medium => PoolsModel { medium: pool, ..self },
            Tier::Large => PoolsModel { large: pool, ..self },
            Tier::Jumbo => PoolsModel { jumbo: pool, ..self },
        }
    }

    /// What holds of all pools.
    pub open spec fn wf(self) -> bool {
        self.small.wf() && self.medium.wf() && self.large.wf() && self.jumbo.wf()
            && self.small.buffer_size == 1024 && self.medium.buffer_size == 1400
            && self.large.buffer_size == 8192 && self.jumbo.buffer_size == 65536
            && self.small.max_size == 4000 && self.medium.max_size == 2000
            && self.large.max_size == 1000 && self.jumbo.max_size == 200
    }

    /// A buffer of this capacity has been given back.
    pub open spec fn given(self, capacity: usize) -> Self {
        let tier = tier_of_capacity(capacity);
        self.with(tier, self.pool(tier).given(capacity))
    }
}

impl BufferPools {
    /// What holds of all pools.
    pub open spec fn wf(&self) -> bool {
        self@.wf()
    }

    /// Empty pools.
    pub fn new() -> (r: Self)
        ensures
            r.wf(),
            forall|tier: Tier| (#[trigger] r@.pool(tier)).buffers.len() == 0 && r@.pool(tier).hits
                == 0,
    {
        BufferPools {
            small: BufferPool::new(4000, 1024),
            medium: BufferPool::new(2000, 1400),
            large: BufferPool::new(1000, 8192),
            jumbo: BufferPool::new(200, 65536),
        }
    }
}

/// Get a buffer from the pools. It is empty.
pub fn try_get_buffer(pools: &mut BufferPools, size_hint: usize) -> (r: BytesMut)
    requires
        old(pools).wf(),
    ensures
        final(pools).wf(),
        buffers::buf_of(r).len() == 0,
        ({
            let tier = tier_of_size(size_hint);
            final(pools)@ == old(pools)@.with(tier, old(pools)@.pool(tier).taken())
        }),
{
    if size_hint <= 1024 {
        pools.small.try_get()
    } else if size_hint <= 1400 {
        pools.medium.try_get()
    } else if size_hint <= 8192 {
        pools.large.try_get()
    } else {
        pools.jumbo.try_get()
    }
}

/// Return a buffer of this capacity to the pools.
pub fn put_buffer_with_capacity(pools: &mut BufferPools, buf: BytesMut, capacity: usize)
    requires
        old(pools).wf(),
    ensures
        final(pools).wf(),
        final(pools)@ == old(pools)@.given(capacity),
{
    if capacity < 1400 {
        pools.small.put_with_capacity(buf, capacity);
    } else if capacity <= 2800 {
        pools.medium.put_with_capacity(buf, capacity);
    } else if capacity <= 16384 {
        pools.large.put_with_capacity(buf, capacity);
    } else {
        pools.jumbo.put_with_capacity(buf, capacity);
    }
}

/// Return a buffer to the pools.
pub fn try_put_buffer(pools: &mut BufferPools, buf: BytesMut)
    requires
        old(pools).wf(),
    ensures
        final(pools).wf(),
        exists|capacity: usize|
            capacity >= buffers::buf_of(buf).len() && final(pools)@ == #[trigger] old(
                pools,
            )@.given(capacity),
{
    let n: usize = capacity(&buf);
    put_buffer_with_capacity(pools, buf, n);
}

/// Get buffer pool statistics for monitoring: name, hits and current size of each pool.
pub fn buffer_pool_stats(pools: &BufferPools) -> (r: Vec<(&'static str, usize, usize)>)
    ensures
        r@.len() == 4,
        r@[0].0@ == "small"@ && r@[0].1 == pools@.small.hits && r@[0].2
            == pools@.small.buffers.len(),
        r@[1].0@ == "medium"@ && r@[1].1 == pools@.medium.hits && r@[1].2
            == pools@.medium.buffers.len(),
        r@[2].0@ == "large"@ && r@[2].1 == pools@.large.hits && r@[2].2
            == pools@.large.buffers.len(),
        r@[3].0@ == "jumbo"@ && r@[3].1 == pools@.jumbo.hits && r@[3].2
            == pools@.jumbo.buffers.len(),
        pools.wf() ==> r@[0].2 <= 4000 && r@[1].2 <= 2000 && r@[2].2 <= 1000 && r@[3].2 <= 200,
{
    let small = pools.small.stats();
    let medium = pools.medium.stats();
    let large = pools.large.stats();
    let jumbo = pools.jumbo.stats();
    let mut r: Vec<(&'static str, usize, usize)> = Vec::new();
    r.push(("small", small.0, small.1));
    r.push(("medium", medium.0, medium.1));
    r.push(("large", large.0, large.1));
    r.push(("jumbo", jumbo.0, jumbo.1));
    r
}

/// A buffer of the size of new ones goes back to the tier that it came from, which takes it.
pub proof fn law_new_buffers_find_a_pool(m: PoolsModel, tier: Tier)
    requires
        m.wf(),
    ensures
        tier_of_capacity(m.pool(tier).buffer_size) == tier,
        m.pool(tier).suits(m.pool(tier).buffer_size),
{
}

/// So does a buffer that came out larger than asked for: up to where its tier takes no more, or,
/// for small buffers, up to the size of medium ones.
pub proof fn law_larger_buffers_find_a_pool(m: PoolsModel, tier: Tier, capacity: usize)
    requires
        m.wf(),
        m.pool(tier).buffer_size <= capacity <= 2 * m.pool(tier).buffer_size,
        tier is Small ==> capacity < m.medium.buffer_size,
    ensures
        tier_of_capacity(capacity) == tier,
        m.pool(tier).suits(capacity),
{
}

/// Giving back a buffer that was new for its tier puts it into that tier, unless the tier is
/// full, and leaves the other tiers alone.
pub proof fn law_buffers_go_back_where_they_came_from(m: PoolsModel, size_hint: usize)
    requires
        m.wf(),
    ensures
        ({
            let tier = tier_of_size(size_hint);
            let pool = m.pool(tier);
            let after = m.given(pool.buffer_size);
            &&& forall|other: Tier| other != tier ==> #[trigger] after.pool(other) == m.pool(other)
            &&& after.pool(tier).buffers.len() == pool.buffers.len() + (if pool.buffers.len()
                < pool.max_size {
                1int
            } else {
                0
            })
            &&& after.pool(tier).hits == pool.hits
        }),
{
}

/// A buffer that some pool takes goes back to a pool that takes it.
pub proof fn law_suitable_buffers_are_taken(m: PoolsModel, tier: Tier, capacity: usize)
    requires
        m.wf(),
        m.pool(tier).suits(capacity),
    ensures
        m.pool(tier_of_capacity(capacity)).suits(capacity),
{
}

/// A pool never holds more buffers than it takes.
pub proof fn law_pool_is_bounded(m: PoolModel, capacity: usize)
    requires
        m.wf(),
    ensures
        m.given(capacity).buffers.len() <= m.max_size,
        m.taken().buffers.len() <= m.max_size,
{
}

/// Once a buffer that suits has been given back, the next one that is handed out comes from the
/// pool.
pub proof fn law_returned_buffers_are_used_again(m: PoolModel, capacity: usize)
    requires
        m.wf(),
        m.suits(capacity),
        m.buffers.len() < m.max_size,
    ensures
        m.given(capacity).buffers.len() == m.buffers.len() + 1,
        m.given(capacity).taken().buffers.len() == m.buffers.len(),
        m.given(capacity).taken().hits == metrics::one_more(m.hits),
{
}

/// A request is served from the pool with the smallest buffers that hold it, and from the one with
/// the largest if none do.
pub proof fn law_requests_go_to_the_smallest_pool(m: PoolsModel, size_hint: usize, tier: Tier)
    requires
        m.wf(),
    ensures
        ({
            let size = m.pool(tier_of_size(size_hint)).buffer_size;
            &&& size_hint <= 65536 ==> size_hint <= size
            &&& size_hint <= m.pool(tier).buffer_size ==> size <= m.pool(tier).buffer_size
            &&& size_hint > 65536 ==> size == 65536
        }),
{
}

/// A pool takes buffers of half to twice its size, as long as it is not full, and hands them out
/// empty, the first one first.
pub proof fn law_pools_hold_what_they_are_given(m: PoolModel, capacity: usize)
    requires
        m.wf(),
    ensures
        ({
            let fits = 2 * capacity + 1 >= m.buffer_size && capacity <= 2 * m.buffer_size;
            let room = m.buffers.len() < m.max_size;
            &&& fits && room ==> m.given(capacity).buffers == m.buffers.push(Seq::empty())
            &&& !fits || !room ==> m.given(capacity) == m
            &&& m.given(capacity).hits == m.hits
            &&& m.buffers.len() > 0 ==> m.taken().buffers == m.buffers.skip(1)
            &&& m.buffers.len() > 0 && m.hits < usize::MAX ==> m.taken().hits == m.hits + 1
            &&& m.buffers.len() == 0 ==> m.taken() == m
        }),
{
}

/// A buffer that comes back goes to the pool for its capacity, and changes no other.
pub proof fn law_one_pool_takes_a_buffer(m: PoolsModel, capacity: usize, tier: Tier)
    requires
        m.wf(),
    ensures
        ({
            let mine = match tier {
                Tier::Small => capacity < 1400,
                Tier::Medium => 1400 <= capacity <= 2800,
                Tier::Large => 2800 < capacity <= 16384,
                Tier::Jumbo => capacity > 16384,
            };
            m.given(capacity).pool(tier) == (if mine {
                m.pool(tier).given(capacity)
            } else {
                m.pool(tier)
            })
        }),
{
}

} // verus!
