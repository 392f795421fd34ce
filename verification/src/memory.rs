//! Buffer abstractions and the memory pool.
//!
//! A `ByteBuffer` owns its bytes exclusively and may be written and
//! resized; an `ImmutableByteBuffer` and a `ByteBufferPtr` share a
//! reference-counted byte sequence that never changes once created, so
//! views of it can be handed out and re-sliced without copying.  The
//! `MemoryPool` is an arena: it owns allocations for its whole lifetime,
//! hands out stable handles, and tracks current and peak bytes allocated.

use std::rc::Rc;
use vstd::prelude::*;
use vstd::slice::slice_subrange;
use crate::errors::Result;

verus! {

/// A shared, reference-counted, immutable byte sequence.
pub type BytePtr = Rc<Vec<u8>>;

/// Relies on `Rc::clone`: the clone is a new handle to the same
/// allocation, so it carries the same byte sequence.
#[verifier::external_body]
fn clone_backing(data: &Rc<Vec<u8>>) -> (r: Rc<Vec<u8>>)
    ensures
        r@ == data@,
{
    data.clone()
}

/// Relies on `Vec::capacity`: the total number of elements the vector can
/// hold without reallocating, which is never below its length.
#[verifier::external_body]
fn byte_vec_capacity(data: &Vec<u8>) -> (r: usize)
    ensures
        r >= data@.len(),
{
    data.capacity()
}

/// A cheap read-only view into a shared immutable byte sequence: a
/// reference-counted backing vector and a start offset.  Sub-views share
/// the backing storage; nothing is copied.
pub struct ByteBufferPtr {
    data: Rc<Vec<u8>>,
    start: usize,
}

impl View for ByteBufferPtr {
    type V = Seq<u8>;

    closed spec fn view(&self) -> Seq<u8> {
        self.data@.skip(self.start as int)
    }
}

impl ByteBufferPtr {
    /// The start offset lies within the backing sequence.
    pub closed spec fn wf(self) -> bool {
        self.start <= self.data@.len()
    }

    /// Wrap an owned byte vector; the view is the whole vector.
    pub fn new(v: Vec<u8>) -> (r: ByteBufferPtr)
        ensures
            r.wf(),
            r@ == v@,
    {
        let r = ByteBufferPtr { data: Rc::new(v), start: 0 };
        proof {
            assert(r@ =~= r.data@);
        }
        r
    }

    /// The number of visible bytes.
    pub fn len(&self) -> (r: usize)
        requires
            self.wf(),
        ensures
            r == self@.len(),
    {
        (*self.data).len() - self.start
    }

    /// The visible bytes as a slice.
    pub fn as_ref(&self) -> (r: &[u8])
        requires
            self.wf(),
        ensures
            r@ == self@,
    {
        let s = slice_subrange((*self.data).as_slice(), self.start, (*self.data).len());
        proof {
            assert(s@ =~= self@);
        }
        s
    }

    /// The byte at index `i` of the view.
    pub fn get(&self, i: usize) -> (r: u8)
        requires
            self.wf(),
            i < self@.len(),
        ensures
            r == self@[i as int],
    {
        let n = (*self.data).len();
        proof {
            assert(self@.len() == n - self.start);
        }
        (*self.data)[self.start + i]
    }

    /// A new view of the same backing storage, covering the same bytes.
    pub fn all(&self) -> (r: ByteBufferPtr)
        requires
            self.wf(),
        ensures
            r.wf(),
            r@ == self@,
    {
        ByteBufferPtr { data: clone_backing(&self.data), start: self.start }
    }

    /// A new view of the same backing storage, starting `offset` bytes
    /// further in and extending to the end.
    pub fn start_from(&self, offset: usize) -> (r: ByteBufferPtr)
        requires
            self.wf(),
            offset <= self@.len(),
        ensures
            r.wf(),
            r@ == self@.skip(offset as int),
    {
        let n = (*self.data).len();
        proof {
            assert(self@.len() == n - self.start);
        }
        let r = ByteBufferPtr { data: clone_backing(&self.data), start: self.start + offset };
        proof {
            assert(r@ =~= self@.skip(offset as int));
        }
        r
    }
}

/// Read-only byte buffer interface.  A buffer holds `size` valid bytes
/// within a `capacity`-byte allocation, and `capacity >= size` always.
pub trait Buffer: Sized {
    /// The valid bytes.
    spec fn contents(&self) -> Seq<u8>;

    /// A shared view of the valid bytes.
    fn data(&self) -> (r: &[u8])
        ensures
            r@ == self.contents(),
    ;

    /// The total bytes allocated; never below the number of valid bytes.
    fn capacity(&self) -> (r: usize)
        ensures
            r >= self.contents().len(),
    ;

    /// The number of valid bytes.
    fn size(&self) -> (r: usize)
        ensures
            r == self.contents().len(),
    ;
}

/// A byte buffer with unique write access to its bytes.
pub trait MutableBuffer: Buffer {
    /// Overwrite the byte at index `i`.
    fn put_byte(&mut self, i: usize, b: u8)
        requires
            i < old(self).contents().len(),
        ensures
            final(self).contents() == old(self).contents().update(i as int, b),
    ;

    /// Replace the contents with `new_data`, discarding the old bytes.
    fn set_data(&mut self, new_data: Vec<u8>)
        ensures
            final(self).contents() == new_data@,
    ;

    /// Grow (zero-filled) or shrink (truncating trailing data) in place
    /// to exactly `new_cap` bytes.
    fn resize(&mut self, new_cap: usize) -> (r: Result<()>)
        ensures
            r is Ok,
            final(self).contents().len() == new_cap,
            new_cap <= old(self).contents().len() ==> final(self).contents() == old(
                self,
            ).contents().subrange(0, new_cap as int),
            new_cap > old(self).contents().len() ==> final(self).contents() == old(
                self,
            ).contents() + Seq::new((new_cap - old(self).contents().len()) as nat, |i: int| 0u8),
    ;
}

/// A growable mutable byte buffer backed by an owned vector.
pub struct ByteBuffer {
    data: Vec<u8>,
}

impl ByteBuffer {
    /// A zero-filled buffer of `size` bytes.
    pub fn new(size: usize) -> (r: Self)
        ensures
            r.contents() == Seq::new(size as nat, |i: int| 0u8),
    {
        let data = vec![0u8; size];
        let r = ByteBuffer { data };
        proof {
            assert(r.contents() =~= Seq::new(size as nat, |i: int| 0u8));
        }
        r
    }

    /// Convert into a shared immutable buffer by ownership transfer; the
    /// bytes are not copied.
    pub fn to_immutable(self) -> (r: ImmutableByteBuffer)
        ensures
            r.contents() == self.contents(),
    {
        ImmutableByteBuffer::new(Rc::new(self.data))
    }
}

impl Buffer for ByteBuffer {
    closed spec fn contents(&self) -> Seq<u8> {
        self.data@
    }

    fn data(&self) -> (r: &[u8]) {
        self.data.as_slice()
    }

    fn capacity(&self) -> (r: usize) {
        byte_vec_capacity(&self.data)
    }

    fn size(&self) -> (r: usize) {
        self.data.len()
    }
}

impl MutableBuffer for ByteBuffer {
    fn put_byte(&mut self, i: usize, b: u8) {
        self.data[i] = b;
    }

    fn set_data(&mut self, new_data: Vec<u8>) {
        self.data = new_data;
    }

    fn resize(&mut self, new_cap: usize) -> (r: Result<()>) {
        self.data.resize(new_cap, 0u8);
        proof {
            if new_cap > old(self).contents().len() {
                assert(self.contents() =~= old(self).contents() + Seq::new(
                    (new_cap - old(self).contents().len()) as nat,
                    |i: int| 0u8,
                ));
            }
        }
        Ok(())
    }
}

/// An immutable byte buffer backed by a shared reference-counted vector.
/// Its capacity always equals its size: an immutable buffer has no slack.
pub struct ImmutableByteBuffer {
    data: BytePtr,
}

impl ImmutableByteBuffer {
    /// Wrap a shared byte sequence.
    pub fn new(data: BytePtr) -> (r: Self)
        ensures
            r.contents() == data@,
    {
        ImmutableByteBuffer { data }
    }
}

impl Buffer for ImmutableByteBuffer {
    closed spec fn contents(&self) -> Seq<u8> {
        self.data@
    }

    fn data(&self) -> (r: &[u8]) {
        (*self.data).as_slice()
    }

    // An immutable buffer has no slack: its capacity equals its size.
    fn capacity(&self) -> (r: usize)
        ensures
            r == self.contents().len(),
    {
        (*self.data).len()
    }

    fn size(&self) -> (r: usize) {
        (*self.data).len()
    }
}

/// An arena that owns byte allocations for its whole lifetime.  `acquire`
/// and `consume` hand out stable handles (indices); no individual
/// allocation is ever released before the pool itself is dropped.  The
/// pool tracks the bytes currently allocated and the peak ever reached,
/// saturating at `i64::MAX`.
pub struct MemoryPool {
    buffers: Vec<Vec<u8>>,
    cur_bytes_allocated: i64,
    max_bytes_allocated: i64,
}

impl MemoryPool {
    /// The byte sequences owned by the pool, in order of adoption.
    pub closed spec fn allocations(self) -> Seq<Seq<u8>> {
        self.buffers.deep_view()
    }

    /// The bytes currently allocated.
    pub closed spec fn spec_cur_allocated(self) -> int {
        self.cur_bytes_allocated as int
    }

    /// The monotonic high-water mark of bytes allocated.
    pub closed spec fn spec_max_allocated(self) -> int {
        self.max_bytes_allocated as int
    }

    /// Counters are non-negative and the peak is at least the current.
    pub closed spec fn wf(self) -> bool {
        0 <= self.cur_bytes_allocated <= self.max_bytes_allocated
    }

    /// An empty pool with zeroed counters.
    pub fn new() -> (r: Self)
        ensures
            r.wf(),
            r.allocations() == Seq::<Seq<u8>>::empty(),
            r.spec_cur_allocated() == 0,
            r.spec_max_allocated() == 0,
    {
        let r = MemoryPool { buffers: Vec::new(), cur_bytes_allocated: 0, max_bytes_allocated: 0 };
        proof {
            assert(r.allocations() =~= Seq::<Seq<u8>>::empty());
        }
        r
    }

    /// Acquire a new zero-filled allocation of `size` bytes, owned by the
    /// pool; the returned handle stays valid for the pool's lifetime.
    pub fn acquire(&mut self, size: usize) -> (h: usize)
        requires
            old(self).wf(),
        ensures
            final(self).wf(),
            h == old(self).allocations().len(),
            final(self).allocations() == old(self).allocations().push(
                Seq::new(size as nat, |i: int| 0u8),
            ),
            final(self).spec_cur_allocated() >= old(self).spec_cur_allocated(),
            final(self).spec_max_allocated() >= old(self).spec_max_allocated(),
            exists|c: int|
                size <= c && #[trigger] pool_counters_updated(*old(self), *final(self), c),
    {
        let buf = vec![0u8; size];
        proof {
            assert(buf@ =~= Seq::new(size as nat, |i: int| 0u8));
        }
        self.consume(buf)
    }

    /// Adopt caller-provided bytes into the pool; after the call the bytes
    /// live exactly as long as the pool.  Both counters rise by the
    /// allocation's capacity (saturating at `i64::MAX`), and the peak is
    /// raised to the new current value if that is a new high.
    pub fn consume(&mut self, data: Vec<u8>) -> (h: usize)
        requires
            old(self).wf(),
        ensures
            final(self).wf(),
            h == old(self).allocations().len(),
            final(self).allocations() == old(self).allocations().push(data@),
            final(self).spec_cur_allocated() >= old(self).spec_cur_allocated(),
            final(self).spec_max_allocated() >= old(self).spec_max_allocated(),
            exists|c: int|
                data@.len() <= c && #[trigger] pool_counters_updated(*old(self), *final(self), c),
    {
        let cap = byte_vec_capacity(&data);
        let ghost prev = *self;
        let h = self.buffers.len();
        self.buffers.push(data);
        let room = i64::MAX - self.cur_bytes_allocated;
        if cap as u64 <= room as u64 {
            self.cur_bytes_allocated = self.cur_bytes_allocated + cap as i64;
        } else {
            self.cur_bytes_allocated = i64::MAX;
        }
        if self.cur_bytes_allocated > self.max_bytes_allocated {
            self.max_bytes_allocated = self.cur_bytes_allocated;
        }
        proof {
            assert(self.allocations() =~~= prev.allocations().push(self.buffers@[h as int]@));
            assert(pool_counters_updated(prev, *self, cap as int));
        }
        h
    }

    /// Read access to the allocation behind a handle.
    pub fn buffer(&self, h: usize) -> (r: &Vec<u8>)
        requires
            h < self.allocations().len(),
        ensures
            r@ == self.allocations()[h as int],
    {
        &self.buffers[h]
    }

    /// The number of bytes currently allocated.
    pub fn cur_allocated(&self) -> (r: i64)
        ensures
            r == self.spec_cur_allocated(),
    {
        self.cur_bytes_allocated
    }

    /// The peak number of bytes ever allocated.
    pub fn max_allocated(&self) -> (r: i64)
        ensures
            r == self.spec_max_allocated(),
    {
        self.max_bytes_allocated
    }
}

/// How one adoption of an allocation of capacity `c` moves the pool's
/// counters: the current count rises by `c`, saturating at `i64::MAX`,
/// and the peak becomes the larger of the old peak and the new current.
pub open spec fn pool_counters_updated(before: MemoryPool, after: MemoryPool, c: int) -> bool {
    &&& after.spec_cur_allocated() == if before.spec_cur_allocated() + c <= i64::MAX {
        before.spec_cur_allocated() + c
    } else {
        i64::MAX as int
    }
    &&& after.spec_max_allocated() == if after.spec_cur_allocated()
        > before.spec_max_allocated() {
        after.spec_cur_allocated()
    } else {
        before.spec_max_allocated()
    }
}

} // verus!
