//! The linear allocator: chunks that are filled from front to back and given back to
//! the device in the order in which they were filled.

use vstd::prelude::*;
use std::collections::VecDeque;
use crate::align::{align_up, lemma_align_up_zero, spec_align_up};
use crate::device::{DeviceMapError, MemoryDevice};
use crate::error::AllocationError;
use crate::heap::Heap;
use crate::types::{AllocationFlags, MemoryPropertyFlags};
use crate::usage::UsageFlags;

verus! {

/// A block of a linear allocator.
#[derive(Debug)]
pub struct LinearBlock<M> {
    /// The memory object of the block's chunk.
    pub memory: M,
    /// Host address of the block's first byte, if the chunk is mapped.
    pub ptr: Option<usize>,
    /// Offset of the block in its chunk.
    pub offset: u64,
    /// Size of the block.
    pub size: u64,
    /// Number of the block's chunk.
    pub chunk: u64,
}

/// What tells one live block of a linear allocator from another: whether its chunk is
/// mapped, the number of its chunk, and its offset in the chunk.
pub struct LinearKey {
    pub mapped: bool,
    pub chunk: u64,
    pub offset: u64,
}

impl<M> LinearBlock<M> {
    /// The key of the block.
    pub open spec fn key(&self) -> LinearKey {
        LinearKey { mapped: self.ptr is Some, chunk: self.chunk, offset: self.offset }
    }
}

/// The size that a request for `size` bytes is served with: a request for nothing is
/// served as one for a single byte.
pub open spec fn spec_effective_size(size: u64) -> u64 {
    if size == 0 {
        1
    } else {
        size
    }
}

/// The size that a request for `size` bytes is served with.
#[verifier::when_used_as_spec(spec_effective_size)]
pub fn effective_size(size: u64) -> (r: u64)
    ensures
        r == spec_effective_size(size),
{
    if size == 0 {
        1
    } else {
        size
    }
}

/// Whether a block of `size` bytes, aligned to `align_mask`, fits into what is left of
/// a chunk of `chunk_size` bytes that is filled up to `cursor`.
pub open spec fn spec_fits(chunk_size: u64, cursor: u64, size: u64, align_mask: u64) -> bool {
    match spec_align_up(cursor, align_mask) {
        Some(aligned) => aligned + size <= chunk_size,
        None => false,
    }
}

/// Whether a block fits into what is left of a chunk.
#[verifier::when_used_as_spec(spec_fits)]
pub fn fits(chunk_size: u64, cursor: u64, size: u64, align_mask: u64) -> (r: bool)
    ensures
        r == spec_fits(chunk_size, cursor, size, align_mask),
{
    match align_up(cursor, align_mask) {
        Some(aligned) => match aligned.checked_add(size) {
            Some(end) => end <= chunk_size,
            None => false,
        },
        None => false,
    }
}

/// The lesser of `l` and `r`, where `r` may be too large for `L`'s type.
pub fn min(l: u64, r: usize) -> (m: u64)
    ensures
        m == if r < l {
            r as u64
        } else {
            l
        },
{
    if (r as u64) < l {
        r as u64
    } else {
        l
    }
}

/// The number of entries of `s` that hold something.
pub open spec fn count_some<T>(s: Seq<Option<T>>) -> nat
    decreases s.len(),
{
    if s.len() == 0 {
        0
    } else {
        count_some(s.drop_last()) + if s.last() is Some {
            1nat
        } else {
            0nat
        }
    }
}

/// An entry that is added counts if it holds something.
pub proof fn lemma_count_push<T>(s: Seq<Option<T>>, x: Option<T>)
    ensures
        count_some(s.push(x)) == count_some(s) + if x is Some {
            1nat
        } else {
            0nat
        },
{
    assert(s.push(x).drop_last() =~= s);
}

/// An entry that is put in place of another counts in its place.
pub proof fn lemma_count_update<T>(s: Seq<Option<T>>, i: int, x: Option<T>)
    requires
        0 <= i < s.len(),
    ensures
        count_some(s.update(i, x)) + (if s[i] is Some {
            1nat
        } else {
            0nat
        }) == count_some(s) + if x is Some {
            1nat
        } else {
            0nat
        },
    decreases s.len(),
{
    if i == s.len() - 1 {
        assert(s.update(i, x).drop_last() =~= s.drop_last());
    } else {
        lemma_count_update(s.drop_last(), i, x);
        assert(s.update(i, x).drop_last() =~= s.drop_last().update(i, x));
    }
}

/// The first entry counts if it holds something.
pub proof fn lemma_count_drop_first<T>(s: Seq<Option<T>>)
    requires
        s.len() > 0,
    ensures
        count_some(s.subrange(1, s.len() as int)) + (if s[0] is Some {
            1nat
        } else {
            0nat
        }) == count_some(s),
    decreases s.len(),
{
    let n = s.len() as int;
    let t = s.subrange(1, n);
    assert(t.len() == n - 1);
    if n == 1 {
        assert(s.drop_last().len() == 0);
        assert(count_some(s.drop_last()) == 0);
        assert(count_some(t) == 0);
        assert(s.last() == s[0]);
    } else {
        let d = s.drop_last();
        lemma_count_drop_first(d);
        assert(d.subrange(1, d.len() as int) =~= t.drop_last());
        assert(t.last() == s.last());
        assert(d[0] == s[0]);
        assert(count_some(t) == count_some(t.drop_last()) + if t.last() is Some {
            1nat
        } else {
            0nat
        });
    }
}

/// The live blocks of one chunk, as a map from offset to size: `allocated` blocks,
/// none empty, each within the first `limit` bytes, no two overlapping.
pub open spec fn live_wf(live: Map<u64, u64>, allocated: u64, limit: u64) -> bool {
    &&& live.dom().finite()
    &&& live.dom().len() == allocated
    &&& forall|o: u64| #[trigger] live.dom().contains(o) ==> live[o] >= 1 && o + live[o] <= limit
    &&& forall|a: u64, b: u64|
        #![trigger live.dom().contains(a), live.dom().contains(b)]
        live.dom().contains(a) && live.dom().contains(b) && a != b ==> a + live[a] <= b || b
            + live[b] <= a
}

/// The chunk that blocks are taken from.
struct Chunk<M> {
    memory: M,
    /// How far the chunk is filled.
    offset: u64,
    /// The number of live blocks in the chunk.
    allocated: u64,
    /// Host address of the chunk's first byte, if the chunk is mapped.
    ptr: Option<usize>,
    live: Ghost<Map<u64, u64>>,
}

/// A chunk that no more blocks are taken from.
struct ExhaustedChunk<M> {
    memory: M,
    /// The number of live blocks in the chunk.
    allocated: u64,
    live: Ghost<Map<u64, u64>>,
}

impl<M> Chunk<M> {
    spec fn wf(&self, chunk_size: u64, mapped: bool) -> bool {
        &&& self.offset <= chunk_size
        &&& self.allocated <= self.offset
        &&& live_wf(self.live@, self.allocated, self.offset)
        &&& (self.ptr is Some) == mapped
        &&& match self.ptr {
            Some(base) => base + chunk_size <= usize::MAX,
            None => true,
        }
    }

    fn exhaust(self) -> (r: ExhaustedChunk<M>)
        ensures
            r.memory == self.memory,
            r.allocated == self.allocated,
            r.live@ == self.live@,
    {
        ExhaustedChunk { memory: self.memory, allocated: self.allocated, live: self.live }
    }
}

impl<M> ExhaustedChunk<M> {
    spec fn wf(&self, chunk_size: u64) -> bool {
        live_wf(self.live@, self.allocated, chunk_size)
    }
}

/// One stream of chunks: the chunk that blocks are taken from, and before it, oldest
/// first, the chunks that were filled, each until its last block is given back. A
/// chunk that had no live block when it was taken out of use stays.
struct Chunks<M> {
    ready: Option<Chunk<M>>,
    exhausted: VecDeque<Option<ExhaustedChunk<M>>>,
    /// The number of the oldest chunk in `exhausted`.
    offset: u64,
}

impl<M> Chunks<M> {
    /// The invariant of a stream: the oldest of the filled chunks is still held, so that
    /// `offset` is its number.
    spec fn wf(&self, chunk_size: u64, mapped: bool) -> bool {
        &&& self.parts_wf(chunk_size, mapped)
        &&& self.exhausted@.len() > 0 ==> self.exhausted@[0] is Some
    }

    /// What holds of a stream also while vacant entries stand at the front of the
    /// filled chunks.
    spec fn parts_wf(&self, chunk_size: u64, mapped: bool) -> bool {
        &&& self.offset + self.exhausted@.len() <= u64::MAX
        &&& match self.ready {
            Some(chunk) => chunk.wf(chunk_size, mapped),
            None => true,
        }
        &&& forall|i: int|
            0 <= i < self.exhausted@.len() ==> match #[trigger] self.exhausted@[i] {
                Some(chunk) => chunk.wf(chunk_size),
                None => true,
            }
    }

    /// The number of memory objects that the stream holds.
    spec fn held(&self) -> nat {
        count_some(self.exhausted@) + if self.ready is Some {
            1nat
        } else {
            0nat
        }
    }

    /// The live blocks of the chunk with number `chunk`.
    spec fn live_at(&self, chunk: u64) -> Map<u64, u64> {
        let index = chunk - self.offset;
        if 0 <= index < self.exhausted@.len() {
            match self.exhausted@[index] {
                Some(c) => c.live@,
                None => Map::empty(),
            }
        } else if index == self.exhausted@.len() {
            match self.ready {
                Some(c) => c.live@,
                None => Map::empty(),
            }
        } else {
            Map::empty()
        }
    }

    /// The memory object of the chunk with number `chunk`, if the stream holds it.
    spec fn memory_at(&self, chunk: int) -> Option<M> {
        let index = chunk - self.offset;
        if 0 <= index < self.exhausted@.len() {
            match self.exhausted@[index] {
                Some(c) => Some(c.memory),
                None => None,
            }
        } else if index == self.exhausted@.len() {
            match self.ready {
                Some(c) => Some(c.memory),
                None => None,
            }
        } else {
            None
        }
    }

    /// The number of the chunk that blocks are taken from.
    spec fn ready_id(&self) -> int {
        self.offset + self.exhausted@.len()
    }

    fn new() -> (r: Self)
        ensures
            r.ready is None,
            r.exhausted@.len() == 0,
            r.offset == 0,
    {
        Chunks { ready: None, exhausted: VecDeque::new(), offset: 0 }
    }

    /// Whether the chunk that blocks are taken from has room for the block.
    spec fn spec_ready_fits(&self, chunk_size: u64, size: u64, align_mask: u64) -> bool {
        match self.ready {
            Some(chunk) => spec_fits(chunk_size, chunk.offset, size, align_mask),
            None => false,
        }
    }

    #[verifier::when_used_as_spec(spec_ready_fits)]
    fn ready_fits(&self, chunk_size: u64, size: u64, align_mask: u64) -> (r: bool)
        ensures
            r == self.spec_ready_fits(chunk_size, size, align_mask),
    {
        match &self.ready {
            Some(chunk) => fits(chunk_size, chunk.offset, size, align_mask),
            None => false,
        }
    }
}

impl<M: Clone> Chunks<M> {
    /// Takes a block from the chunk that blocks are taken from.
    fn take(&mut self, chunk_size: u64, size: u64, align_mask: u64, Ghost(mapped): Ghost<bool>) -> (r:
        LinearBlock<M>)
        requires
            old(self).wf(chunk_size, mapped),
            old(self).spec_ready_fits(chunk_size, size, align_mask),
            size >= 1,
        ensures
            final(self).wf(chunk_size, mapped),
            final(self).held() == old(self).held(),
            final(self).offset == old(self).offset,
            final(self).exhausted@ == old(self).exhausted@,
            final(self).ready is Some,
            final(self).ready->0.offset == r.offset + r.size,
            final(self).ready->0.ptr == old(self).ready->0.ptr,
            final(self).ready->0.memory == old(self).ready->0.memory,
            cloned(old(self).ready->0.memory, r.memory),
            r.chunk == old(self).ready_id(),
            Some(r.offset) == spec_align_up(old(self).ready->0.offset, align_mask),
            r.offset & align_mask == 0,
            r.size == size,
            r.offset + r.size <= chunk_size,
            (r.ptr is Some) == mapped,
            r.ptr is Some ==> r.ptr->0 + r.size <= usize::MAX,
            r.ptr == match old(self).ready->0.ptr {
                Some(base) => Some((base + r.offset) as usize),
                None => None,
            },
            !old(self).live_at(r.chunk).dom().contains(r.offset),
            forall|o: u64|
                #[trigger] old(self).live_at(r.chunk).dom().contains(o) ==> o + old(
                    self,
                ).live_at(r.chunk)[o] <= r.offset,
            final(self).live_at(r.chunk) == old(self).live_at(r.chunk).insert(r.offset, r.size),
            forall|c: u64| c != r.chunk ==> final(self).live_at(c) == old(self).live_at(c),
    {
        let id = self.offset + self.exhausted.len() as u64;
        match &mut self.ready {
            Some(chunk) => {
                let offset = align_up(chunk.offset, align_mask).unwrap();
                let ghost before = chunk.live@;
                proof {
                    if before.dom().contains(offset) {
                        assert(offset + before[offset] <= chunk.offset);
                    }
                }
                chunk.offset = offset + size;
                chunk.allocated += 1;
                chunk.live = Ghost(before.insert(offset, size));
                let memory = chunk.memory.clone();
                let ptr = match chunk.ptr {
                    Some(base) => Some(base + offset as usize),
                    None => None,
                };
                LinearBlock { memory, ptr, offset, size, chunk: id }
            },
            None => vstd::pervasive::unreached(),
        }
    }
}

/// What `count` chunks of `chunk_size` bytes take from a heap.
pub open spec fn chunk_bytes(count: nat, chunk_size: u64) -> nat {
    count * (chunk_size as nat)
}

/// Each chunk takes its size from the heap.
pub proof fn lemma_chunk_bytes(count: nat, chunk_size: u64)
    ensures
        chunk_bytes(count + 1, chunk_size) == chunk_bytes(count, chunk_size) + chunk_size,
        chunk_bytes(0, chunk_size) == 0,
        count >= 1 ==> chunk_bytes(count, chunk_size) >= chunk_size,
{
    assert((count + 1) * (chunk_size as nat) == count * (chunk_size as nat) + chunk_size)
        by (nonlinear_arith);
    assert(count >= 1 ==> count * (chunk_size as nat) >= chunk_size) by (nonlinear_arith);
}

/// The bytes of chunks add up.
pub proof fn lemma_chunk_bytes_sum(a: nat, b: nat, chunk_size: u64)
    ensures
        chunk_bytes(a + b, chunk_size) == chunk_bytes(a, chunk_size) + chunk_bytes(b, chunk_size),
{
    assert((a + b) * (chunk_size as nat) == a * (chunk_size as nat) + b * (chunk_size as nat))
        by (nonlinear_arith);
}

/// `VecDeque::get_mut` for an index in range, where it returns `Some`: a reference to
/// the element at `index`. The other elements stay as they are.
#[verifier::external_body]
fn deque_get_mut<T>(deque: &mut VecDeque<T>, index: usize) -> (r: &mut T)
    requires
        index < old(deque)@.len(),
    ensures
        *r == old(deque)@[index as int],
        final(deque)@ == old(deque)@.update(index as int, *final(r)),
{
    deque.get_mut(index).unwrap()
}

impl<M> Chunks<M> {
    /// Drops the vacant entries at the front of the filled chunks.
    fn pop_vacant(&mut self, Ghost(chunk_size): Ghost<u64>, Ghost(mapped): Ghost<bool>)
        requires
            old(self).parts_wf(chunk_size, mapped),
        ensures
            final(self).wf(chunk_size, mapped),
            final(self).ready == old(self).ready,
            final(self).held() == old(self).held(),
            final(self).ready_id() == old(self).ready_id(),
            final(self).offset >= old(self).offset,
            old(self).wf(chunk_size, mapped) ==> *final(self) == *old(self),
            forall|c: u64| final(self).live_at(c) == old(self).live_at(c),
            forall|c: int| final(self).memory_at(c) == old(self).memory_at(c),
    {
        while self.exhausted.len() > 0 && self.exhausted[0].is_none()
            invariant
                self.parts_wf(chunk_size, mapped),
                self.offset >= old(self).offset,
                old(self).wf(chunk_size, mapped) ==> *self == *old(self),
                self.ready == old(self).ready,
                self.held() == old(self).held(),
                self.ready_id() == old(self).ready_id(),
                forall|c: u64| self.live_at(c) == old(self).live_at(c),
                forall|c: int| self.memory_at(c) == old(self).memory_at(c),
            decreases self.exhausted@.len(),
        {
            let ghost before = *self;
            proof {
                lemma_count_drop_first(self.exhausted@);
            }
            let _ = self.exhausted.pop_front();
            self.offset += 1;
            proof {
                assert forall|c: u64| self.live_at(c) == before.live_at(c) by {
                    let index = c - before.offset;
                    if 1 <= index < before.exhausted@.len() {
                        assert(self.exhausted@[index - 1] == before.exhausted@[index]);
                    }
                }
                assert forall|c: int| self.memory_at(c) == before.memory_at(c) by {
                    let index = c - before.offset;
                    if 1 <= index < before.exhausted@.len() {
                        assert(self.exhausted@[index - 1] == before.exhausted@[index]);
                    }
                }
            }
        }
    }

    /// Makes a fresh memory object the chunk that blocks are taken from.
    fn install(
        &mut self,
        memory: M,
        ptr: Option<usize>,
        Ghost(chunk_size): Ghost<u64>,
        Ghost(mapped): Ghost<bool>,
    )
        requires
            old(self).wf(chunk_size, mapped),
            old(self).ready is None,
            (ptr is Some) == mapped,
            ptr is Some ==> ptr->0 + chunk_size <= usize::MAX,
        ensures
            final(self).wf(chunk_size, mapped),
            final(self).held() == old(self).held() + 1,
            final(self).ready matches Some(chunk) && chunk.offset == 0 && chunk.ptr == ptr
                && chunk.memory == memory,
            final(self).offset == old(self).offset,
            final(self).exhausted@ == old(self).exhausted@,
            forall|c: u64| final(self).live_at(c) == old(self).live_at(c),
    {
        self.ready = Some(
            Chunk { memory, offset: 0, allocated: 0, ptr, live: Ghost(Map::empty()) },
        );
    }
}

impl<M> Chunks<M> {
    /// Whether the stream can take another chunk: the number of the chunk that would
    /// come after the one that blocks are taken from, if there is one, is below
    /// `u64::MAX`.
    spec fn can_retire(&self) -> bool {
        self.ready_id() + (if self.ready is Some {
            1int
        } else {
            0int
        }) < u64::MAX
    }

    /// The stream after the chunk that blocks are taken from has joined the filled
    /// chunks.
    spec fn retired_to(&self, after: &Self) -> bool {
        let chunk = self.ready->0;
        &&& after.ready is None
        &&& after.offset == self.offset
        &&& after.exhausted@ == self.exhausted@.push(
            Some(
                ExhaustedChunk {
                    memory: chunk.memory,
                    allocated: chunk.allocated,
                    live: chunk.live,
                },
            ),
        )
    }

    /// Takes the chunk that blocks are taken from out of use: it joins the filled
    /// chunks, whether a block of it is live or not. Returns whether the stream can
    /// take another chunk: it cannot when the chunk numbers are used up, and then
    /// nothing is changed.
    fn retire(&mut self, chunk_size: u64, Ghost(mapped): Ghost<bool>) -> (done: bool)
        requires
            old(self).wf(chunk_size, mapped),
        ensures
            final(self).wf(chunk_size, mapped),
            forall|c: u64| final(self).live_at(c) == old(self).live_at(c),
            forall|c: int| final(self).memory_at(c) == old(self).memory_at(c),
            done == old(self).can_retire(),
            done ==> final(self).ready is None,
            done ==> final(self).ready_id() < u64::MAX,
            !done || old(self).ready is None ==> *final(self) == *old(self),
            done && old(self).ready is Some ==> old(self).retired_to(final(self)) && final(self).ready_id() == old(self).ready_id() + 1,
            final(self).held() == old(self).held(),
    {
        let ready_id = self.offset + self.exhausted.len() as u64;
        if self.ready.is_none() {
            return ready_id < u64::MAX;
        }
        if ready_id >= u64::MAX - 1 {
            return false;
        }
        let chunk = self.ready.take().unwrap();
        proof {
            lemma_count_push(
                self.exhausted@,
                Some(
                    ExhaustedChunk {
                        memory: chunk.memory,
                        allocated: chunk.allocated,
                        live: chunk.live,
                    },
                ),
            );
        }
        let ghost before = *self;
        self.exhausted.push_back(Some(chunk.exhaust()));
        proof {
            assert forall|c: u64| self.live_at(c) == old(self).live_at(c) by {
                let index = c - before.offset;
                if 0 <= index < before.exhausted@.len() {
                    assert(self.exhausted@[index] == before.exhausted@[index]);
                }
            }
            assert forall|c: int| self.memory_at(c) == old(self).memory_at(c) by {
                let index = c - before.offset;
                if 0 <= index < before.exhausted@.len() {
                    assert(self.exhausted@[index] == before.exhausted@[index]);
                }
            }
        }
        true
    }

    /// Takes back the block at `offset` of the chunk with number `chunk`. A filled
    /// chunk goes back to the device with its last block.
    fn release<D: MemoryDevice<M>>(
        &mut self,
        device: &D,
        chunk: u64,
        offset: u64,
        chunk_size: u64,
        heap: &mut Heap,
        allocations_remains: &mut u32,
        Ghost(mapped): Ghost<bool>,
    )
        requires
            old(self).wf(chunk_size, mapped),
            old(self).live_at(chunk).dom().contains(offset),
            old(heap).wf(),
            chunk_bytes(old(self).held(), chunk_size) <= old(heap).spec_used(),
            old(self).held() + *old(allocations_remains) <= u32::MAX,
        ensures
            final(self).wf(chunk_size, mapped),
            final(heap).wf(),
            final(heap).spec_size() == old(heap).spec_size(),
            final(self).live_at(chunk) == old(self).live_at(chunk).remove(offset),
            forall|c: u64| c != chunk ==> final(self).live_at(c) == old(self).live_at(c),
            final(self).held() <= old(self).held(),
            final(heap).spec_used() + chunk_bytes(old(self).held(), chunk_size) == old(
                heap,
            ).spec_used() + chunk_bytes(final(self).held(), chunk_size),
            *final(allocations_remains) + final(self).held() == *old(allocations_remains) + old(
                self,
            ).held(),
            final(self).ready_id() == old(self).ready_id(),
            final(self).ready is Some <==> old(self).ready is Some,
            final(self).ready is Some ==> final(self).ready->0.offset == old(self).ready->0.offset
                && final(self).ready->0.ptr == old(self).ready->0.ptr,
            final(self).offset >= old(self).offset,
            chunk == old(self).ready_id() ==> final(self).offset == old(self).offset,
            final(self).held() + (if chunk < old(self).ready_id() && final(self).live_at(
                chunk,
            ).dom().len() == 0 {
                1nat
            } else {
                0nat
            }) == old(self).held(),
            forall|c: int|
                final(self).memory_at(c) == if c == chunk && chunk < old(self).ready_id() && final(self).live_at(chunk).dom().len() == 0 {
                    None
                } else {
                    old(self).memory_at(c)
                },
    {
        let index = (chunk - self.offset) as usize;
        if index == self.exhausted.len() {
            match &mut self.ready {
                Some(ready) => {
                    ready.allocated -= 1;
                    ready.live = Ghost(ready.live@.remove(offset));
                },
                None => {},
            }
        } else {
            let ghost before = *self;
            let slot = deque_get_mut(&mut self.exhausted, index);
            let mut last = false;
            match slot {
                Some(filled) => {
                    filled.allocated -= 1;
                    filled.live = Ghost(filled.live@.remove(offset));
                    last = filled.allocated == 0;
                },
                None => {},
            }
            if last {
                let freed = slot.take().unwrap();
                proof {
                    lemma_count_update(before.exhausted@, index as int, None);
                    lemma_chunk_bytes((before.held() - 1) as nat, chunk_size);
                    assert(freed.live@.dom().len() == 0);
                    assert(freed.live@ =~= Map::empty());
                }
                device.deallocate_memory(freed.memory);
                *allocations_remains += 1;
                heap.dealloc(chunk_size);
            } else {
                proof {
                    lemma_count_update(before.exhausted@, index as int, self.exhausted@[index as int]);
                }
            }
            proof {
                assert forall|c: u64| c != chunk implies self.live_at(c)
                    == old(self).live_at(c) by {
                    let i = c - before.offset;
                    if 0 <= i < before.exhausted@.len() {
                        assert(self.exhausted@[i] == before.exhausted@[i]);
                    }
                }
                assert(self.live_at(chunk) =~= old(self).live_at(chunk).remove(offset));
                assert forall|c: int| c != chunk implies self.memory_at(c) == old(
                    self,
                ).memory_at(c) by {
                    let i = c - before.offset;
                    if 0 <= i < before.exhausted@.len() {
                        assert(self.exhausted@[i] == before.exhausted@[i]);
                    }
                }
            }
        }
        self.pop_vacant(Ghost(chunk_size), Ghost(mapped));
    }
}

/// What the allocator does with a fresh chunk, given what the device returned for
/// mapping it.
#[derive(Clone, Copy, Debug, PartialEq, Eq, Structural)]
pub enum ChunkMapping {
    /// The chunk is mapped at this host address and joins the mapped chunks.
    Mapped(usize),
    /// The chunk is not mapped and joins the unmapped chunks.
    Unmapped,
    /// The chunk goes back to the device and the request fails with this error.
    Failed(AllocationError),
}

/// What becomes of a fresh chunk of `chunk_size` bytes for which mapping returned
/// `mapped`, for a request that needs host access or does not.
///
/// * A chunk that is mapped at an address from which `chunk_size` bytes fit into the
///   address space is used mapped.
/// * A chunk that the device failed to map, or that it mapped at an address from which
///   the bytes do not fit, is used unmapped if the host needs no access and the
///   unmapped chunks can take it, and fails with `OutOfHostMemory` otherwise.
/// * Where the device ran out of memory, the request fails with that error.
pub open spec fn spec_chunk_mapping(
    mapped: Result<usize, DeviceMapError>,
    chunk_size: u64,
    host_access: bool,
    unmapped_vacant: bool,
) -> ChunkMapping {
    match mapped {
        Ok(address) if address + chunk_size <= usize::MAX => ChunkMapping::Mapped(address),
        Ok(_) | Err(DeviceMapError::MapFailed) => if !host_access && unmapped_vacant {
            ChunkMapping::Unmapped
        } else {
            ChunkMapping::Failed(AllocationError::OutOfHostMemory)
        },
        Err(DeviceMapError::OutOfDeviceMemory) => ChunkMapping::Failed(
            AllocationError::OutOfDeviceMemory,
        ),
        Err(DeviceMapError::OutOfHostMemory) => ChunkMapping::Failed(
            AllocationError::OutOfHostMemory,
        ),
    }
}

/// What the allocator does with a fresh chunk.
#[verifier::when_used_as_spec(spec_chunk_mapping)]
pub fn chunk_mapping(
    mapped: Result<usize, DeviceMapError>,
    chunk_size: u64,
    host_access: bool,
    unmapped_vacant: bool,
) -> (r: ChunkMapping)
    ensures
        r == spec_chunk_mapping(mapped, chunk_size, host_access, unmapped_vacant),
{
    match mapped {
        Ok(address) if chunk_size <= usize::MAX as u64 && address <= usize::MAX
            - chunk_size as usize => ChunkMapping::Mapped(address),
        Ok(_) | Err(DeviceMapError::MapFailed) => if !host_access && unmapped_vacant {
            ChunkMapping::Unmapped
        } else {
            ChunkMapping::Failed(AllocationError::OutOfHostMemory)
        },
        Err(DeviceMapError::OutOfDeviceMemory) => ChunkMapping::Failed(
            AllocationError::OutOfDeviceMemory,
        ),
        Err(DeviceMapError::OutOfHostMemory) => ChunkMapping::Failed(
            AllocationError::OutOfHostMemory,
        ),
    }
}

/// A linear allocator for one memory type.
///
/// Blocks are cut from the front of a chunk until the next one does not fit; then the
/// chunk joins the filled chunks and a new chunk is started. A filled chunk goes back
/// to the device when its last block is given back; one that had no live block when
/// it was taken out of use stays with the allocator. Chunks that are mapped for the
/// host and chunks that are not are kept apart, each kind with chunk numbers of its
/// own.
pub struct LinearAllocator<M> {
    chunks: Chunks<M>,
    chunks_unmapped: Chunks<M>,
    chunk_size: u64,
    memory_type: u32,
    props: MemoryPropertyFlags,
    atom_mask: u64,
}

impl<M> LinearAllocator<M> {
    spec fn stream(&self, mapped: bool) -> Chunks<M> {
        if mapped {
            self.chunks
        } else {
            self.chunks_unmapped
        }
    }

    /// Size of the chunks.
    pub closed spec fn spec_chunk_size(&self) -> u64 {
        self.chunk_size
    }

    /// Index of the memory type that the chunks are allocated from.
    pub closed spec fn spec_memory_type(&self) -> u32 {
        self.memory_type
    }

    /// Properties of the memory type.
    pub closed spec fn spec_props(&self) -> MemoryPropertyFlags {
        self.props
    }

    /// The mask that every block is aligned to, whatever the request asks for.
    pub closed spec fn spec_atom_mask(&self) -> u64 {
        self.atom_mask
    }

    /// The invariant of the allocator.
    pub closed spec fn wf(&self) -> bool {
        &&& self.chunks.wf(self.chunk_size, true)
        &&& self.chunks_unmapped.wf(self.chunk_size, false)
        &&& self.chunk_size <= isize::MAX
    }

    /// The number of memory objects that the allocator holds.
    pub closed spec fn objects_held(&self) -> nat {
        self.chunks.held() + self.chunks_unmapped.held()
    }

    /// The bytes that the allocator's memory objects take from the heap.
    pub open spec fn bytes_held(&self) -> nat {
        chunk_bytes(self.objects_held(), self.spec_chunk_size())
    }

    /// The live blocks of the allocator: those allocated and not yet given back, each
    /// with its size.
    pub closed spec fn live(&self) -> Map<LinearKey, u64> {
        Map::new(
            |k: LinearKey| self.stream(k.mapped).live_at(k.chunk).dom().contains(k.offset),
            |k: LinearKey| self.stream(k.mapped).live_at(k.chunk)[k.offset],
        )
    }

    /// Whether `block` is a live block of the allocator.
    pub open spec fn owns(&self, block: &LinearBlock<M>) -> bool {
        self.live().dom().contains(block.key())
    }

    /// How far the chunk that blocks are taken from is filled, for the mapped chunks
    /// or the unmapped ones. `None` if there is no such chunk.
    pub closed spec fn ready_cursor(&self, mapped: bool) -> Option<u64> {
        match self.stream(mapped).ready {
            Some(chunk) => Some(chunk.offset),
            None => None,
        }
    }

    /// The host address of the first byte of the chunk that blocks are taken from.
    /// `None` if there is no such chunk, or if it is not mapped.
    pub closed spec fn ready_base(&self, mapped: bool) -> Option<usize> {
        match self.stream(mapped).ready {
            Some(chunk) => chunk.ptr,
            None => None,
        }
    }

    /// The number of the chunk that blocks are taken from.
    pub closed spec fn ready_chunk(&self, mapped: bool) -> int {
        self.stream(mapped).ready_id()
    }

    /// The memory object of the chunk with number `chunk`, of the mapped chunks or of
    /// the unmapped ones, if the allocator holds the chunk: a filled chunk, or the
    /// chunk that blocks are taken from.
    pub closed spec fn memory_of(&self, mapped: bool, chunk: int) -> Option<M> {
        self.stream(mapped).memory_at(chunk)
    }

    /// Whether the chunk that blocks are taken from has room for `size` bytes aligned to
    /// `align_mask`.
    pub open spec fn ready_fits(&self, mapped: bool, size: u64, align_mask: u64) -> bool {
        match self.ready_cursor(mapped) {
            Some(cursor) => spec_fits(self.spec_chunk_size(), cursor, size, align_mask),
            None => false,
        }
    }

    /// The chunks that serve a request without a new chunk, mapped ones or unmapped
    /// ones, or `None` if the request needs a new chunk.
    ///
    /// In host-visible memory a request that needs no host access is served from the
    /// unmapped chunks where they have room, and every request from the mapped chunks
    /// where those have. In other memory there are only unmapped chunks.
    pub open spec fn served_from(&self, size: u64, align_mask: u64, usage: UsageFlags) -> Option<
        bool,
    > {
        let size = spec_effective_size(size);
        let mask = align_mask | self.spec_atom_mask();
        if self.spec_props().spec_is_host_visible() {
            if !usage.spec_has(UsageFlags::HOST_ACCESS_BIT) && self.ready_fits(false, size, mask) {
                Some(false)
            } else if self.ready_fits(true, size, mask) {
                Some(true)
            } else {
                None
            }
        } else {
            if self.ready_fits(false, size, mask) {
                Some(false)
            } else {
                None
            }
        }
    }

    /// Whether no block of the chunk with number `chunk`, of the mapped chunks or of the
    /// unmapped ones, is live.
    pub open spec fn chunk_empty(&self, mapped: bool, chunk: int) -> bool {
        forall|k: LinearKey|
            #[trigger] self.live().dom().contains(k) ==> !(k.mapped == mapped && k.chunk == chunk)
    }

    /// Whether the chunks of a kind can take another chunk: the number of the chunk
    /// after the one that blocks are taken from, if there is one, is below `u64::MAX`.
    pub open spec fn numbers_left(&self, mapped: bool) -> bool {
        self.ready_chunk(mapped) + (if self.ready_cursor(mapped) is Some {
            1int
        } else {
            0int
        }) < u64::MAX
    }

    /// Whether a request takes the chunk that blocks are taken from, of the mapped
    /// chunks or of the unmapped ones, out of use.
    ///
    /// The unmapped chunk is taken out of use by a request that may be served from
    /// unmapped memory and for which it has no room; the mapped chunk by a request
    /// that no chunk has room for. Neither is where the chunk numbers of its kind are
    /// used up. A chunk that is taken out of use joins the filled chunks, whether a
    /// block of it is live or not, and stays with the allocator until the last of its
    /// blocks is given back.
    pub open spec fn retires(&self, mapped: bool, size: u64, align_mask: u64, usage: UsageFlags) -> bool {
        let wanted = spec_effective_size(size);
        let mask = align_mask | self.spec_atom_mask();
        let host_visible = self.spec_props().spec_is_host_visible();
        &&& wanted <= self.spec_chunk_size()
        &&& self.numbers_left(mapped)
        &&& if mapped {
            host_visible && self.served_from(size, align_mask, usage) is None
        } else {
            (!host_visible || !usage.spec_has(UsageFlags::HOST_ACCESS_BIT)) && !self.ready_fits(
                false,
                wanted,
                mask,
            )
        }
    }

    /// Whether a request needs a new chunk that cannot get a number: no chunk has room
    /// for the request, and the chunk numbers of the kind that the new chunk would be
    /// of first, mapped in host-visible memory and unmapped in other memory, are used
    /// up.
    pub open spec fn stuck(&self, size: u64, align_mask: u64, usage: UsageFlags) -> bool {
        &&& spec_effective_size(size) <= self.spec_chunk_size()
        &&& self.served_from(size, align_mask, usage) is None
        &&& !self.numbers_left(self.spec_props().spec_is_host_visible())
    }

    /// Whether a request is served from a new chunk, if the device gives one.
    pub open spec fn needs_chunk(&self, size: u64, align_mask: u64, usage: UsageFlags) -> bool {
        &&& spec_effective_size(size) <= self.spec_chunk_size()
        &&& self.served_from(size, align_mask, usage) is None
        &&& self.numbers_left(self.spec_props().spec_is_host_visible())
    }

    /// No block of a chunk is live exactly if the chunk has no live offset.
    proof fn lemma_chunk_empty(&self, mapped: bool, chunk: u64)
        requires
            self.stream(mapped).live_at(chunk).dom().finite(),
        ensures
            self.chunk_empty(mapped, chunk as int) <==> self.stream(mapped).live_at(
                chunk,
            ).dom().len() == 0,
    {
        let dom = self.stream(mapped).live_at(chunk).dom();
        if self.chunk_empty(mapped, chunk as int) {
            assert forall|offset: u64| !dom.contains(offset) by {
                let key = LinearKey { mapped, chunk, offset };
                if dom.contains(offset) {
                    assert(self.live().dom().contains(key));
                }
            }
            assert(dom =~= Set::<u64>::empty());
        }
        if dom.len() == 0 {
            assert(dom =~= Set::<u64>::empty());
        }
    }

    /// The live offsets of every chunk of a stream are finitely many.
    proof fn lemma_live_finite(&self, mapped: bool, chunk: u64)
        requires
            self.wf(),
        ensures
            self.stream(mapped).live_at(chunk).dom().finite(),
            self.stream(mapped).ready is Some && chunk == self.stream(mapped).ready_id()
                ==> self.stream(mapped).live_at(chunk).dom().len() == self.stream(
                mapped,
            ).ready->0.allocated,
    {
        let stream = self.stream(mapped);
        let index = chunk - stream.offset;
        if 0 <= index < stream.exhausted@.len() {
            if stream.exhausted@[index] is Some {
                assert(stream.exhausted@[index]->0.wf(self.chunk_size));
            }
        }
    }

    /// Which chunks the allocator holds: none that is older than `first_chunk` or
    /// younger than the chunk that blocks are taken from; the chunk `first_chunk`
    /// itself, if it is older than the chunk that blocks are taken from; that chunk
    /// exactly if there is one; and the chunk of every live block.
    pub proof fn lemma_first_chunk(&self, mapped: bool)
        requires
            self.wf(),
        ensures
            self.spec_first_chunk(mapped) <= self.ready_chunk(mapped),
            forall|chunk: int|
                #[trigger] self.memory_of(mapped, chunk) is Some ==> self.spec_first_chunk(mapped)
                    <= chunk <= self.ready_chunk(mapped),
            self.spec_first_chunk(mapped) < self.ready_chunk(mapped) ==> self.memory_of(
                mapped,
                self.spec_first_chunk(mapped) as int,
            ) is Some,
            self.memory_of(mapped, self.ready_chunk(mapped)) is Some <==> self.ready_cursor(
                mapped,
            ) is Some,
            forall|k: LinearKey|
                #[trigger] self.live().dom().contains(k) && k.mapped == mapped ==> self.memory_of(
                    mapped,
                    k.chunk as int,
                ) is Some,
    {
    }

    /// No two live blocks in one chunk overlap, and each lies within the chunk.
    pub proof fn lemma_live_blocks_disjoint(&self, a: LinearKey, b: LinearKey)
        requires
            self.wf(),
            self.live().dom().contains(a),
            self.live().dom().contains(b),
            a != b,
            a.mapped == b.mapped,
            a.chunk == b.chunk,
        ensures
            a.offset + self.live()[a] <= b.offset || b.offset + self.live()[b] <= a.offset,
            a.offset + self.live()[a] <= self.spec_chunk_size(),
            self.live()[a] >= 1,
    {
        let stream = self.stream(a.mapped);
        let index = a.chunk - stream.offset;
        if 0 <= index < stream.exhausted@.len() {
            assert(stream.exhausted@[index] is Some);
        }
    }

    /// A new allocator, which holds no chunk. Chunks are `chunk_size` bytes, or as many
    /// as a host address can span where that is less.
    pub fn new(chunk_size: u64, memory_type: u32, props: MemoryPropertyFlags, atom_mask: u64) -> (r:
        Self)
        ensures
            r.wf(),
            r.spec_chunk_size() == if chunk_size <= isize::MAX {
                chunk_size
            } else {
                isize::MAX as u64
            },
            r.spec_memory_type() == memory_type,
            r.spec_props() == props,
            r.spec_atom_mask() == atom_mask,
            r.objects_held() == 0,
            r.bytes_held() == 0,
            r.live() == Map::<LinearKey, u64>::empty(),
            r.ready_cursor(true) is None,
            r.ready_cursor(false) is None,
            r.ready_chunk(true) == 0,
            r.ready_chunk(false) == 0,
            r.spec_first_chunk(true) == 0,
            r.spec_first_chunk(false) == 0,
            forall|mapped: bool, chunk: int| #[trigger] r.memory_of(mapped, chunk) is None,
    {
        let r = LinearAllocator {
            chunks: Chunks::new(),
            chunks_unmapped: Chunks::new(),
            chunk_size: min(chunk_size, isize::MAX as usize),
            memory_type,
            props,
            atom_mask,
        };
        proof {
            assert(r.live() =~= Map::<LinearKey, u64>::empty());
            lemma_chunk_bytes(0, r.chunk_size);
        }
        r
    }

    fn host_visible(&self) -> (r: bool)
        ensures
            r == self.props.spec_is_host_visible(),
    {
        self.props.is_host_visible()
    }

    /// Size of the chunks.
    #[verifier::when_used_as_spec(spec_chunk_size)]
    pub fn chunk_size(&self) -> (r: u64)
        ensures
            r == self.spec_chunk_size(),
    {
        self.chunk_size
    }

    /// The number of the oldest chunk that is still held, of the mapped chunks or of
    /// the unmapped ones; if none is held, the number that the next chunk gets.
    pub closed spec fn spec_first_chunk(&self, mapped: bool) -> u64 {
        self.stream(mapped).offset
    }

    /// The number of the oldest chunk that is still held.
    #[verifier::when_used_as_spec(spec_first_chunk)]
    pub fn first_chunk(&self, mapped: bool) -> (r: u64)
        ensures
            r == self.spec_first_chunk(mapped),
    {
        if mapped {
            self.chunks.offset
        } else {
            self.chunks_unmapped.offset
        }
    }

    /// Whether `block` begins where every live block of its chunk has ended.
    pub open spec fn lies_behind(&self, block: &LinearBlock<M>) -> bool {
        forall|k: LinearKey|
            #[trigger] self.live().dom().contains(k) && k.mapped == block.key().mapped && k.chunk
                == block.chunk ==> k.offset + self.live()[k] <= block.offset
    }

    /// Whether `block` is the only live block of its chunk.
    pub open spec fn last_of_chunk(&self, block: &LinearBlock<M>) -> bool {
        forall|k: LinearKey|
            #[trigger] self.live().dom().contains(k) && k != block.key() ==> !(k.mapped
                == block.key().mapped && k.chunk == block.chunk)
    }

    /// Whether the chunk of `block` goes back to the device when the block is given
    /// back: the chunk is a filled one, not that which blocks are taken from, and the
    /// block is its last.
    pub open spec fn frees_chunk(&self, block: &LinearBlock<M>) -> bool {
        block.chunk < self.ready_chunk(block.ptr is Some) && self.last_of_chunk(block)
    }

    /// Gives a block back to the allocator.
    ///
    /// A block of the chunk that blocks are taken from leaves the chunk in use, the
    /// heap and the number of memory objects as they are. A filled chunk goes back to
    /// the device exactly with its last block; the oldest chunk that is still held is
    /// then what `lemma_first_chunk` says.
    pub fn dealloc<D: MemoryDevice<M>>(
        &mut self,
        device: &D,
        block: LinearBlock<M>,
        heap: &mut Heap,
        allocations_remains: &mut u32,
    )
        requires
            old(self).wf(),
            old(self).owns(&block),
            old(heap).wf(),
            old(self).bytes_held() <= old(heap).spec_used(),
            old(self).objects_held() + *old(allocations_remains) <= u32::MAX,
        ensures
            final(self).wf(),
            final(self).spec_chunk_size() == old(self).spec_chunk_size(),
            final(self).spec_memory_type() == old(self).spec_memory_type(),
            final(self).spec_props() == old(self).spec_props(),
            final(self).spec_atom_mask() == old(self).spec_atom_mask(),
            final(self).live() == old(self).live().remove(block.key()),
            final(heap).wf(),
            final(heap).spec_size() == old(heap).spec_size(),
            final(self).objects_held() <= old(self).objects_held(),
            final(heap).spec_used() + old(self).bytes_held()
                == old(heap).spec_used() + final(self).bytes_held(),
            *final(allocations_remains) + final(self).objects_held() == *old(allocations_remains)
                + old(self).objects_held(),
            final(self).objects_held() + (if old(self).frees_chunk(&block) {
                1nat
            } else {
                0nat
            }) == old(self).objects_held(),
            !old(self).frees_chunk(&block) ==> final(heap).spec_used() == old(heap).spec_used()
                && *final(allocations_remains) == *old(allocations_remains),
            old(self).frees_chunk(&block) ==> final(heap).spec_used() + old(self).spec_chunk_size()
                == old(heap).spec_used() && *final(allocations_remains) == *old(
                allocations_remains,
            ) + 1,
            forall|mapped: bool|
                #![trigger final(self).ready_chunk(mapped)]
                #![trigger final(self).ready_cursor(mapped)]
                #![trigger final(self).ready_base(mapped)]
                final(self).ready_chunk(mapped) == old(self).ready_chunk(mapped) && final(self).ready_cursor(mapped) == old(self).ready_cursor(mapped) && final(self).ready_base(
                    mapped,
                ) == old(self).ready_base(mapped),
            final(self).spec_first_chunk(block.ptr is None) == old(self).spec_first_chunk(
                block.ptr is None,
            ),
            final(self).spec_first_chunk(block.ptr is Some) >= old(self).spec_first_chunk(
                block.ptr is Some,
            ),
            block.chunk == old(self).ready_chunk(block.ptr is Some) ==> final(self).spec_first_chunk(block.ptr is Some) == old(self).spec_first_chunk(block.ptr is Some),
            forall|mapped: bool, chunk: int|
                #![trigger final(self).memory_of(mapped, chunk)]
                final(self).memory_of(mapped, chunk) == if old(self).frees_chunk(&block) && mapped
                    == (block.ptr is Some) && chunk == block.chunk {
                    None
                } else {
                    old(self).memory_of(mapped, chunk)
                },
    {
        proof {
            self.lemma_live_finite(block.ptr is Some, block.chunk);
            lemma_chunk_bytes(self.objects_held(), self.chunk_size);
            if self.objects_held() >= 1 {
                lemma_chunk_bytes((self.objects_held() - 1) as nat, self.chunk_size);
            }
            lemma_chunk_bytes_sum(
                self.chunks.held(),
                self.chunks_unmapped.held(),
                self.chunk_size,
            );
        }
        if block.ptr.is_some() {
            self.chunks.release(
                device,
                block.chunk,
                block.offset,
                self.chunk_size,
                heap,
                allocations_remains,
                Ghost(true),
            );
        } else {
            self.chunks_unmapped.release(
                device,
                block.chunk,
                block.offset,
                self.chunk_size,
                heap,
                allocations_remains,
                Ghost(false),
            );
        }
        proof {
            lemma_chunk_bytes_sum(
                self.chunks.held(),
                self.chunks_unmapped.held(),
                self.chunk_size,
            );
            assert(self.live() =~= old(self).live().remove(block.key()));
            self.lemma_chunk_empty(block.ptr is Some, block.chunk);
            assert(self.chunk_empty(block.ptr is Some, block.chunk as int) <==> old(
                self,
            ).last_of_chunk(&block)) by {
                let key = block.key();
                if self.chunk_empty(block.ptr is Some, block.chunk as int) {
                    assert forall|k: LinearKey| #[trigger]
                        old(self).live().dom().contains(k) && k != key implies !(k.mapped
                        == key.mapped && k.chunk == key.chunk) by {
                        assert(self.live().dom().contains(k));
                    }
                }
                if old(self).last_of_chunk(&block) {
                    assert forall|k: LinearKey| #[trigger]
                        self.live().dom().contains(k) implies !(k.mapped == (block.ptr is Some)
                        && k.chunk == block.chunk) by {
                        assert(old(self).live().dom().contains(k) && k != key);
                    }
                }
            }
        }
    }
}

impl<M> LinearAllocator<M> {
    /// Whether everything but the chunks is the same in `self` and `other`.
    pub open spec fn same_parameters(&self, other: &Self) -> bool {
        &&& self.spec_chunk_size() == other.spec_chunk_size()
        &&& self.spec_memory_type() == other.spec_memory_type()
        &&& self.spec_props() == other.spec_props()
        &&& self.spec_atom_mask() == other.spec_atom_mask()
    }

    /// Takes the chunk that blocks are taken from, mapped or unmapped, out of use: it
    /// joins the filled chunks of its kind, whether a block of it is live or not.
    /// Returns whether the chunks of that kind can take another chunk; where they
    /// cannot, nothing is changed.
    fn retire_stream(&mut self, mapped: bool) -> (done: bool)
        requires
            old(self).wf(),
        ensures
            final(self).wf(),
            final(self).same_parameters(old(self)),
            final(self).live() == old(self).live(),
            final(self).objects_held() == old(self).objects_held(),
            final(self).stream(!mapped) == old(self).stream(!mapped),
            final(self).spec_first_chunk(mapped) == old(self).spec_first_chunk(mapped),
            done == old(self).numbers_left(mapped),
            done ==> final(self).ready_cursor(mapped) is None && final(self).ready_base(mapped)
                is None && final(self).ready_chunk(mapped) < u64::MAX,
            !done || old(self).ready_cursor(mapped) is None ==> final(self).stream(mapped)
                == old(self).stream(mapped),
            done && old(self).ready_cursor(mapped) is Some ==> old(self).stream(
                mapped,
            ).retired_to(&final(self).stream(mapped)) && final(self).ready_chunk(mapped) == old(
                self,
            ).ready_chunk(mapped) + 1,
            forall|m: bool, chunk: int|
                #![trigger final(self).memory_of(m, chunk)]
                final(self).memory_of(m, chunk) == old(self).memory_of(m, chunk),
    {
        let done = if mapped {
            self.chunks.retire(self.chunk_size, Ghost(true))
        } else {
            self.chunks_unmapped.retire(self.chunk_size, Ghost(false))
        };
        proof {
            assert(self.live() =~= old(self).live());
        }
        done
    }

    /// Makes a fresh memory object the chunk that blocks are taken from, mapped at
    /// `ptr` or unmapped.
    fn install_chunk(&mut self, memory: M, ptr: Option<usize>)
        requires
            old(self).wf(),
            old(self).stream(ptr is Some).ready is None,
            ptr is Some ==> ptr->0 + old(self).spec_chunk_size() <= usize::MAX,
        ensures
            final(self).wf(),
            final(self).same_parameters(old(self)),
            final(self).live() == old(self).live(),
            final(self).objects_held() == old(self).objects_held() + 1,
            final(self).bytes_held() == old(self).bytes_held() + old(self).spec_chunk_size(),
            final(self).stream(ptr is None) == old(self).stream(ptr is None),
            final(self).ready_cursor(ptr is Some) == Some(0u64),
            final(self).ready_base(ptr is Some) == ptr,
            final(self).ready_chunk(ptr is Some) == old(self).ready_chunk(ptr is Some),
            old(self).memory_of(ptr is Some, old(self).ready_chunk(ptr is Some)) is None,
            final(self).spec_first_chunk(ptr is Some) == old(self).spec_first_chunk(ptr is Some),
            forall|m: bool, chunk: int|
                #![trigger final(self).memory_of(m, chunk)]
                final(self).memory_of(m, chunk) == if m == (ptr is Some) && chunk == old(
                    self,
                ).ready_chunk(ptr is Some) {
                    Some(memory)
                } else {
                    old(self).memory_of(m, chunk)
                },
    {
        proof {
            lemma_chunk_bytes(self.objects_held(), self.chunk_size);
        }
        if ptr.is_some() {
            self.chunks.install(memory, ptr, Ghost(self.chunk_size), Ghost(true));
        } else {
            self.chunks_unmapped.install(memory, ptr, Ghost(self.chunk_size), Ghost(false));
        }
        proof {
            assert(self.live() =~= old(self).live());
        }
    }
}

impl<M: Clone> LinearAllocator<M> {
    /// Takes a block from the chunk that blocks are taken from, mapped or unmapped.
    fn take_from(&mut self, mapped: bool, size: u64, align_mask: u64) -> (r: LinearBlock<M>)
        requires
            old(self).wf(),
            old(self).ready_fits(mapped, size, align_mask),
            size >= 1,
        ensures
            final(self).wf(),
            final(self).same_parameters(old(self)),
            final(self).objects_held() == old(self).objects_held(),
            r.chunk == old(self).ready_chunk(mapped),
            Some(r.offset) == spec_align_up(old(self).ready_cursor(mapped)->0, align_mask),
            r.offset & align_mask == 0,
            r.size == size,
            r.offset + r.size <= old(self).spec_chunk_size(),
            (r.ptr is Some) == mapped,
            r.ptr is Some ==> r.ptr->0 + r.size <= usize::MAX,
            r.ptr == match old(self).ready_base(mapped) {
                Some(base) => Some((base + r.offset) as usize),
                None => None,
            },
            !old(self).live().dom().contains(r.key()),
            old(self).lies_behind(&r),
            final(self).live() == old(self).live().insert(r.key(), r.size),
            final(self).stream(!mapped) == old(self).stream(!mapped),
            final(self).ready_cursor(mapped) == Some((r.offset + r.size) as u64),
            final(self).ready_base(mapped) == old(self).ready_base(mapped),
            final(self).ready_chunk(mapped) == old(self).ready_chunk(mapped),
            old(self).memory_of(mapped, r.chunk as int) matches Some(memory) && cloned(
                memory,
                r.memory,
            ),
            final(self).spec_first_chunk(mapped) == old(self).spec_first_chunk(mapped),
            forall|m: bool, chunk: int|
                #![trigger final(self).memory_of(m, chunk)]
                final(self).memory_of(m, chunk) == old(self).memory_of(m, chunk),
    {
        let r = if mapped {
            self.chunks.take(self.chunk_size, size, align_mask, Ghost(true))
        } else {
            self.chunks_unmapped.take(self.chunk_size, size, align_mask, Ghost(false))
        };
        proof {
            assert(self.live() =~= old(self).live().insert(r.key(), r.size));
        }
        r
    }

    /// Whether `block` is the first block of a new chunk of `self`, mapped at `base` or
    /// unmapped, that `before` did not hold: the chunk has the number that was free, the
    /// block starts it, and the chunks of the other kind are what they were.
    pub open spec fn starts_chunk(&self, before: &Self, block: &LinearBlock<M>, base: Option<usize>) -> bool {
        let mapped = base is Some;
        &&& block.chunk == before.ready_chunk(mapped)
        &&& block.offset == 0
        &&& block.ptr == base
        &&& self.ready_chunk(mapped) == before.ready_chunk(mapped)
        &&& self.ready_cursor(mapped) == Some(block.size)
        &&& self.ready_base(mapped) == base
        &&& self.ready_chunk(!mapped) == before.ready_chunk(!mapped)
        &&& self.ready_cursor(!mapped) == before.ready_cursor(!mapped)
        &&& self.ready_base(!mapped) == before.ready_base(!mapped)
        &&& self.spec_first_chunk(true) == before.spec_first_chunk(true)
        &&& self.spec_first_chunk(false) == before.spec_first_chunk(false)
        &&& !before.live().dom().contains(block.key())
        &&& before.lies_behind(block)
        &&& self.live() == before.live().insert(block.key(), block.size)
        &&& self.objects_held() == before.objects_held() + 1
    }

    /// Whether `memory` is the memory object of the chunk of `block`, which `before`
    /// did not hold, and `block` carries a clone of it; the other chunks are those of
    /// `before`.
    pub open spec fn holds_new_chunk(&self, before: &Self, block: &LinearBlock<M>, memory: M) -> bool {
        &&& cloned(memory, block.memory)
        &&& before.memory_of(block.ptr is Some, block.chunk as int) is None
        &&& forall|mapped: bool, chunk: int|
            #![trigger self.memory_of(mapped, chunk)]
            self.memory_of(mapped, chunk) == if mapped == (block.ptr is Some) && chunk
                == block.chunk {
                Some(memory)
            } else {
                before.memory_of(mapped, chunk)
            }
    }

    /// Takes a fresh memory object as the chunk that blocks are taken from, mapped at
    /// `ptr` or unmapped, where there is no such chunk: the chunk is charged to the
    /// heap and to the number of memory objects that the device can give, and the
    /// first block, of `size` bytes, is cut from it.
    pub fn start_chunk(
        &mut self,
        memory: M,
        ptr: Option<usize>,
        size: u64,
        align_mask: u64,
        heap: &mut Heap,
        allocations_remains: &mut u32,
    ) -> (r: LinearBlock<M>)
        requires
            old(self).wf(),
            old(self).ready_cursor(ptr is Some) is None,
            ptr is Some ==> ptr->0 + old(self).spec_chunk_size() <= usize::MAX,
            1 <= size <= old(self).spec_chunk_size(),
            old(heap).wf(),
            *old(allocations_remains) > 0,
            old(self).spec_chunk_size() <= old(heap).spec_budget(),
        ensures
            final(self).wf(),
            final(self).same_parameters(old(self)),
            final(heap).wf(),
            final(heap).spec_size() == old(heap).spec_size(),
            final(self).starts_chunk(old(self), &r, ptr),
            final(self).holds_new_chunk(old(self), &r, memory),
            r.size == size,
            r.offset & align_mask == 0,
            final(heap).spec_used() == old(heap).spec_used() + old(self).spec_chunk_size(),
            *final(allocations_remains) == *old(allocations_remains) - 1,
    {
        proof {
            lemma_align_up_zero(align_mask);
        }
        *allocations_remains -= 1;
        heap.allocate(self.chunk_size);
        let mapped = ptr.is_some();
        self.install_chunk(memory, ptr);
        self.take_from(mapped, size, align_mask)
    }

    /// What becomes of a fresh chunk in host-visible memory, which `memory` is, given
    /// what the device returned for mapping it: `chunk_mapping` decides.
    ///
    /// * A chunk that is used, mapped or unmapped, is charged to the heap and to the
    ///   number of memory objects, and the first block of `size` bytes is cut from it.
    /// * A chunk that is not used goes back to the device, and the allocator, what the
    ///   heap is charged with and the number of memory objects are what they were.
    pub fn settle_chunk<D: MemoryDevice<M>>(
        &mut self,
        device: &D,
        memory: M,
        mapped: Result<usize, DeviceMapError>,
        size: u64,
        align_mask: u64,
        host_access: bool,
        heap: &mut Heap,
        allocations_remains: &mut u32,
    ) -> (r: Result<LinearBlock<M>, AllocationError>)
        requires
            old(self).wf(),
            old(self).ready_cursor(true) is None,
            1 <= size <= old(self).spec_chunk_size(),
            old(heap).wf(),
            *old(allocations_remains) > 0,
            old(self).spec_chunk_size() <= old(heap).spec_budget(),
        ensures
            final(self).wf(),
            final(self).same_parameters(old(self)),
            final(heap).wf(),
            final(heap).spec_size() == old(heap).spec_size(),
            match spec_chunk_mapping(
                mapped,
                old(self).spec_chunk_size(),
                host_access,
                old(self).ready_cursor(false) is None,
            ) {
                ChunkMapping::Mapped(address) => {
                    &&& r is Ok
                    &&& r->Ok_0.size == size
                    &&& r->Ok_0.offset & align_mask == 0
                    &&& final(self).holds_new_chunk(old(self), &r->Ok_0, memory)
                    &&& final(self).starts_chunk(old(self), &r->Ok_0, Some(address))
                    &&& final(heap).spec_used() == old(heap).spec_used() + old(
                        self,
                    ).spec_chunk_size()
                    &&& *final(allocations_remains) == *old(allocations_remains) - 1
                },
                ChunkMapping::Unmapped => {
                    &&& r is Ok
                    &&& r->Ok_0.size == size
                    &&& r->Ok_0.offset & align_mask == 0
                    &&& final(self).holds_new_chunk(old(self), &r->Ok_0, memory)
                    &&& final(self).starts_chunk(old(self), &r->Ok_0, None)
                    &&& final(heap).spec_used() == old(heap).spec_used() + old(
                        self,
                    ).spec_chunk_size()
                    &&& *final(allocations_remains) == *old(allocations_remains) - 1
                },
                ChunkMapping::Failed(err) => {
                    &&& r is Err
                    &&& r->Err_0 == err
                    &&& *final(self) == *old(self)
                    &&& final(heap).spec_used() == old(heap).spec_used()
                    &&& *final(allocations_remains) == *old(allocations_remains)
                },
            },
    {
        let unmapped_vacant = self.chunks_unmapped.ready.is_none();
        match chunk_mapping(mapped, self.chunk_size, host_access, unmapped_vacant) {
            ChunkMapping::Mapped(address) => Ok(
                self.start_chunk(
                    memory,
                    Some(address),
                    size,
                    align_mask,
                    heap,
                    allocations_remains,
                ),
            ),
            ChunkMapping::Unmapped => {
                if mapped.is_ok() {
                    device.unmap_memory(&memory);
                }
                Ok(self.start_chunk(memory, None, size, align_mask, heap, allocations_remains))
            },
            ChunkMapping::Failed(err) => {
                if mapped.is_ok() {
                    device.unmap_memory(&memory);
                }
                device.deallocate_memory(memory);
                *allocations_remains -= 1;
                heap.allocate(self.chunk_size);
                *allocations_remains += 1;
                heap.dealloc(self.chunk_size);
                Err(err)
            },
        }
    }

    /// Allocates a block of at least `size` bytes, aligned to `align_mask` and to the
    /// allocator's own mask.
    ///
    /// The block is cut from the chunk that `served_from` names, if it names one.
    /// Otherwise the chunks that `retires` names are taken out of use and join the
    /// filled chunks, whether a block of them is live or not. Then a new chunk is
    /// allocated from the device, if the device can still give a memory object and the
    /// heap's budget allows it, and mapped if the memory is host-visible;
    /// `settle_chunk` and `start_chunk` say what becomes of the chunk for what the
    /// device returned. The block is then the first of the new chunk. Where the
    /// device can give no memory object the request fails with `TooManyObjects`; no
    /// chunk goes back to the device to make room.
    #[verifier::rlimit(60)]
    pub fn allocate<D: MemoryDevice<M>>(
        &mut self,
        device: &D,
        size: u64,
        align_mask: u64,
        usage: UsageFlags,
        flags: AllocationFlags,
        heap: &mut Heap,
        allocations_remains: &mut u32,
    ) -> (r: Result<LinearBlock<M>, AllocationError>)
        requires
            old(self).wf(),
            old(heap).wf(),
            usage.spec_has(UsageFlags::HOST_ACCESS_BIT) ==> old(
                self,
            ).spec_props().spec_is_host_visible(),
        ensures
            final(self).wf(),
            final(self).same_parameters(old(self)),
            final(heap).wf(),
            final(heap).spec_size() == old(heap).spec_size(),
            final(heap).spec_used() + old(self).bytes_held()
                == old(heap).spec_used() + final(self).bytes_held(),
            *final(allocations_remains) + final(self).objects_held() == *old(allocations_remains)
                + old(self).objects_held(),
            ({
                let fresh = r is Ok && old(self).served_from(size, align_mask, usage) is None;
                &&& final(self).objects_held() == old(self).objects_held() + if fresh {
                    1nat
                } else {
                    0nat
                }
                &&& *final(allocations_remains) == *old(allocations_remains) - if fresh {
                    1int
                } else {
                    0int
                }
                &&& final(heap).spec_used() == old(heap).spec_used() + if fresh {
                    old(self).spec_chunk_size() as int
                } else {
                    0int
                }
                &&& fresh ==> *old(allocations_remains) > 0 && old(self).spec_chunk_size() <= old(
                    heap,
                ).spec_budget() && old(self).memory_of(
                    r->Ok_0.ptr is Some,
                    r->Ok_0.chunk as int,
                ) is None
                &&& forall|mapped: bool, chunk: int|
                    #![trigger final(self).memory_of(mapped, chunk)]
                    !(fresh && mapped == (r->Ok_0.ptr is Some) && chunk == r->Ok_0.chunk)
                        ==> final(self).memory_of(mapped, chunk) == old(self).memory_of(
                        mapped,
                        chunk,
                    )
            }),
            match r {
                Ok(block) => {
                    &&& block.size == spec_effective_size(size)
                    &&& block.offset & (align_mask | old(self).spec_atom_mask()) == 0
                    &&& block.offset + block.size <= old(self).spec_chunk_size()
                    &&& block.ptr is Some ==> block.ptr->0 + block.size <= usize::MAX
                    &&& usage.spec_has(UsageFlags::HOST_ACCESS_BIT) ==> block.ptr is Some
                    &&& !old(self).spec_props().spec_is_host_visible() ==> block.ptr is None
                    &&& !old(self).live().dom().contains(block.key())
                    &&& old(self).lies_behind(&block)
                    &&& final(self).live() == old(self).live().insert(block.key(), block.size)
                    &&& block.chunk == final(self).ready_chunk(block.ptr is Some)
                    &&& block.ptr == match final(self).ready_base(block.ptr is Some) {
                        Some(base) => Some((base + block.offset) as usize),
                        None => None,
                    }
                    &&& final(self).memory_of(block.ptr is Some, block.chunk as int) matches Some(
                        memory,
                    ) && cloned(memory, block.memory)
                    &&& old(self).served_from(size, align_mask, usage) is None ==> block.offset
                        == 0
                },
                Err(_) => final(self).live() == old(self).live(),
            },
            forall|mapped: bool|
                #![trigger final(self).ready_chunk(mapped)]
                final(self).ready_chunk(mapped) == old(self).ready_chunk(mapped) + (if old(
                    self,
                ).retires(mapped, size, align_mask, usage) && old(self).ready_cursor(mapped)
                    is Some {
                    1int
                } else {
                    0int
                }),
            forall|mapped: bool|
                #![trigger final(self).ready_cursor(mapped)]
                final(self).ready_cursor(mapped) == (if r is Ok && (r->Ok_0.ptr is Some)
                    == mapped {
                    Some((r->Ok_0.offset + r->Ok_0.size) as u64)
                } else if old(self).retires(mapped, size, align_mask, usage) {
                    None
                } else {
                    old(self).ready_cursor(mapped)
                }),
            forall|mapped: bool|
                #![trigger final(self).ready_base(mapped)]
                final(self).ready_base(mapped) == (if r is Ok && (r->Ok_0.ptr is Some) == mapped
                    && old(self).served_from(size, align_mask, usage) is None {
                    r->Ok_0.ptr
                } else if old(self).retires(mapped, size, align_mask, usage) {
                    None
                } else {
                    old(self).ready_base(mapped)
                }),
            forall|mapped: bool|
                #![trigger final(self).spec_first_chunk(mapped)]
                final(self).spec_first_chunk(mapped) == old(self).spec_first_chunk(mapped),
            spec_effective_size(size) > old(self).spec_chunk_size() ==> r is Err && r->Err_0
                == AllocationError::OutOfDeviceMemory && *final(self) == *old(self),
            old(self).served_from(size, align_mask, usage) matches Some(mapped) ==> r is Ok && (
            r->Ok_0.ptr is Some) == mapped && r->Ok_0.chunk == old(self).ready_chunk(mapped)
                && Some(r->Ok_0.offset) == spec_align_up(
                old(self).ready_cursor(mapped)->0,
                align_mask | old(self).spec_atom_mask(),
            ) && r->Ok_0.ptr == match old(self).ready_base(mapped) {
                Some(base) => Some((base + r->Ok_0.offset) as usize),
                None => None,
            },
            old(self).stuck(size, align_mask, usage) ==> r is Err && r->Err_0
                == AllocationError::OutOfHostMemory,
            r is Err && r->Err_0 == AllocationError::TooManyObjects <==> old(self).needs_chunk(
                size,
                align_mask,
                usage,
            ) && *old(allocations_remains) == 0,
            old(self).needs_chunk(size, align_mask, usage) && *old(allocations_remains) > 0
                && old(self).spec_chunk_size() > old(heap).spec_budget() ==> r is Err && r->Err_0
                == AllocationError::OutOfDeviceMemory,
            r is Err ==> r->Err_0 != AllocationError::NoCompatibleMemoryTypes,
    {
        let ghost asked = size;
        let ghost asked_mask = align_mask;
        let size = effective_size(size);
        let align_mask = align_mask | self.atom_mask;
        if size > self.chunk_size {
            return Err(AllocationError::OutOfDeviceMemory);
        }
        let host_access = usage.has(UsageFlags::HOST_ACCESS_BIT);
        let host_visible = self.host_visible();
        proof {
            lemma_chunk_bytes(self.objects_held(), self.chunk_size);
        }
        if host_visible && !host_access || !host_visible {
            if self.chunks_unmapped.ready_fits(self.chunk_size, size, align_mask) {
                return Ok(self.take_from(false, size, align_mask));
            }
            let done = self.retire_stream(false);
            if !host_visible && !done {
                return Err(AllocationError::OutOfHostMemory);
            }
        }
        if host_visible {
            if self.chunks.ready_fits(self.chunk_size, size, align_mask) {
                return Ok(self.take_from(true, size, align_mask));
            }
            if !self.retire_stream(true) {
                return Err(AllocationError::OutOfHostMemory);
            }
        }
        proof {
            assert(old(self).needs_chunk(asked, asked_mask, usage));
        }
        if *allocations_remains == 0 {
            return Err(AllocationError::TooManyObjects);
        }
        if self.chunk_size > heap.budget() {
            return Err(AllocationError::OutOfDeviceMemory);
        }
        let memory = match device.allocate_memory(self.chunk_size, self.memory_type, flags) {
            Ok(memory) => memory,
            Err(err) => {
                return Err(AllocationError::from(err));
            },
        };
        if !host_visible {
            return Ok(self.start_chunk(memory, None, size, align_mask, heap, allocations_remains));
        }
        let mapped = device.map_memory(&memory, 0, self.chunk_size);
        self.settle_chunk(
            device,
            memory,
            mapped,
            size,
            align_mask,
            host_access,
            heap,
            allocations_remains,
        )
    }
}

} // verus!
