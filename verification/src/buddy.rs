//! The buddy allocator: chunks that are split in halves, again and again, down to the
//! size that a request needs, and halves that are joined again when both are free.

use vstd::prelude::*;
use vstd::arithmetic::power2::{lemma2_to64, lemma_pow2_strictly_increases, lemma_pow2_unfold, pow2};
use crate::align::{
    align_up, is_low_mask, lemma_align_up_exceeds_mask, lemma_aligned_exceeds,
    lemma_aligned_to_lesser, lemma_double_power_of_two, spec_align_up, spec_is_power_of_two,
};
use crate::device::{DeviceMapError, MemoryDevice};
use crate::error::AllocationError;
use crate::heap::Heap;
use crate::linear::{
    count_some, effective_size, lemma_count_push, lemma_count_update, spec_effective_size,
};
use crate::slab::Slab;
use crate::tree::{BuddyKey, ChunkInfo, Tree};
use crate::types::{AllocationFlags, MemoryPropertyFlags};

verus! {

/// One of the two halves of a pair.
#[derive(Clone, Copy, Debug, PartialEq, Eq, Structural)]
pub enum Side {
    Left,
    Right,
}

impl Side {
    /// The number of the side: 0 for the left half, 1 for the right half.
    pub open spec fn spec_bit(&self) -> u8 {
        match *self {
            Side::Left => 0,
            Side::Right => 1,
        }
    }

    /// The number of the side.
    #[verifier::when_used_as_spec(spec_bit)]
    pub fn bit(&self) -> (r: u8)
        ensures
            r == self.spec_bit(),
    {
        match self {
            Side::Left => 0,
            Side::Right => 1,
        }
    }

    /// The other half.
    pub open spec fn other(&self) -> Side {
        match *self {
            Side::Left => Side::Right,
            Side::Right => Side::Left,
        }
    }
}

/// The index of a node in its size class: the index of its pair, shifted left by one
/// bit, with the number of its side as the lowest bit.
pub open spec fn spec_node_index(pair: usize, side: Side) -> int {
    2 * pair + side.spec_bit()
}

/// The pair of the node with index `index`.
pub open spec fn spec_node_pair(index: usize) -> usize {
    (index / 2) as usize
}

/// The side of the node with index `index`.
pub open spec fn spec_node_side(index: usize) -> Side {
    if index % 2 == 0 {
        Side::Left
    } else {
        Side::Right
    }
}

/// Every node index stands for exactly one pair and side, and the other way round.
pub proof fn lemma_node_index_bijection(pair: usize, side: Side, index: usize)
    ensures
        pair <= usize::MAX / 2 ==> spec_node_index(pair, side) <= usize::MAX && spec_node_pair(
            spec_node_index(pair, side) as usize,
        ) == pair && spec_node_side(spec_node_index(pair, side) as usize) == side,
        spec_node_pair(index) <= usize::MAX / 2,
        spec_node_index(spec_node_pair(index), spec_node_side(index)) == index,
{
}

/// The index of the node `side` of the pair `pair`.
pub fn node_index(pair: usize, side: Side) -> (r: usize)
    requires
        pair <= usize::MAX / 2,
    ensures
        r == spec_node_index(pair, side),
{
    pair * 2 + side.bit() as usize
}

/// The offset of the half `side` of a pair at `offset` whose halves are `size` bytes.
pub open spec fn half_offset(offset: u64, side: Side, size: u64) -> int {
    match side {
        Side::Left => offset as int,
        Side::Right => offset + size,
    }
}

/// What a half of a pair is used for.
#[derive(Clone, Copy, PartialEq, Eq, Structural)]
pub enum Use {
    /// The half is free.
    Free,
    /// The half is a block that was handed out.
    Held,
    /// The half is split: it is the pair with this index in the next smaller class.
    Split(usize),
}

/// Whether a pair has a free half.
#[derive(Clone, Copy, Debug, PartialEq, Eq, Structural)]
enum PairState {
    /// Both halves are in use.
    Exhausted,
    /// The half `ready` is free and the other is in use. `next` and `prev` are the
    /// neighbours of the pair in the ring of the pairs of its class that have a free
    /// half.
    Ready { ready: Side, next: usize, prev: usize },
}

/// Two halves of a block of the next larger class, or of a whole chunk.
#[derive(Clone, Copy)]
struct PairEntry {
    state: PairState,
    chunk: usize,
    offset: u64,
    /// The node of the next larger class that was split into this pair. `None` for the
    /// two halves of a chunk.
    parent: Option<usize>,
    left: Ghost<Use>,
    right: Ghost<Use>,
}

/// What a pair is, apart from its place in the ring.
pub struct PairCore {
    /// The chunk that the pair lies in.
    pub chunk: usize,
    /// The offset of the pair's left half in the chunk.
    pub offset: u64,
    /// The node that was split into this pair.
    pub parent: Option<usize>,
    /// What the left half is used for.
    pub left: Use,
    /// What the right half is used for.
    pub right: Use,
}

impl PairCore {
    /// What the half `side` is used for.
    pub open spec fn usage(&self, side: Side) -> Use {
        match side {
            Side::Left => self.left,
            Side::Right => self.right,
        }
    }

    /// The pair with the half `side` used for `usage`.
    pub open spec fn with_usage(&self, side: Side, usage: Use) -> PairCore {
        match side {
            Side::Left => PairCore { left: usage, ..*self },
            Side::Right => PairCore { right: usage, ..*self },
        }
    }
}

impl PairEntry {
    spec fn pair_core(&self) -> PairCore {
        PairCore {
            chunk: self.chunk,
            offset: self.offset,
            parent: self.parent,
            left: self.left@,
            right: self.right@,
        }
    }

    /// The state says which half is free, and neither half is marked as split.
    spec fn wf(&self) -> bool {
        &&& !(self.left@ is Split)
        &&& !(self.right@ is Split)
        &&& match self.state {
            PairState::Exhausted => self.left@ != Use::Free && self.right@ != Use::Free,
            PairState::Ready { ready, .. } => self.pair_core().usage(ready) == Use::Free
                && self.pair_core().usage(ready.other()) != Use::Free,
        }
    }

    spec fn next(&self) -> usize {
        match self.state {
            PairState::Ready { next, .. } => next,
            PairState::Exhausted => 0,
        }
    }

    spec fn prev(&self) -> usize {
        match self.state {
            PairState::Ready { prev, .. } => prev,
            PairState::Exhausted => 0,
        }
    }
}

/// A node that was acquired: where it lies, and its index in its class.
#[derive(Clone, Copy)]
pub struct SizeBlockEntry {
    /// Index of the chunk that the node lies in.
    pub chunk: usize,
    /// Offset of the node in its chunk.
    pub offset: u64,
    /// Index of the node in its class.
    pub index: usize,
}

/// What releasing a node leads to.
enum Release {
    /// The node is free now, and its buddy is still in use.
    Done,
    /// The node and its buddy were joined: the node that they were split from, which
    /// has this index in the next larger class, is to be released.
    Parent(usize),
    /// The node and its buddy were joined to the whole chunk with this index.
    Chunk(usize),
}

/// Whether the slot `i` of `pairs` holds a pair that has a free half.
spec fn in_ring(pairs: Seq<Option<PairEntry>>, i: int) -> bool {
    0 <= i < pairs.len() && pairs[i] is Some && pairs[i]->0.state is Ready
}

/// Whether the neighbours of the pair at `i` are in the ring and point back at it.
spec fn ring_at(pairs: Seq<Option<PairEntry>>, i: int) -> bool {
    let next = pairs[i]->0.next() as int;
    let prev = pairs[i]->0.prev() as int;
    &&& in_ring(pairs, next)
    &&& in_ring(pairs, prev)
    &&& pairs[next]->0.prev() == i
    &&& pairs[prev]->0.next() == i
}

/// The pairs that have a free half form rings.
#[verifier::opaque]
spec fn ring_wf(pairs: Seq<Option<PairEntry>>) -> bool {
    forall|i: int| #[trigger] in_ring(pairs, i) ==> ring_at(pairs, i)
}

/// The pairs that have a free half, but for the one at `x`, form rings that do not
/// touch the pair at `x`.
#[verifier::opaque]
spec fn ring_wf_without(pairs: Seq<Option<PairEntry>>, x: int) -> bool {
    forall|i: int|
        i != x && #[trigger] in_ring(pairs, i) ==> {
            &&& ring_at(pairs, i)
            &&& pairs[i]->0.next() != x
            &&& pairs[i]->0.prev() != x
        }
}

spec fn with_next(entry: PairEntry, next: usize) -> PairEntry {
    PairEntry {
        state: PairState::Ready { ready: entry.state->ready, next, prev: entry.prev() },
        ..entry
    }
}

spec fn with_prev(entry: PairEntry, prev: usize) -> PairEntry {
    PairEntry {
        state: PairState::Ready { ready: entry.state->ready, next: entry.next(), prev },
        ..entry
    }
}

/// The pairs after the pair at `x` is taken out of its ring: its neighbours point at
/// each other. The pair at `x` itself is left as it is.
spec fn unlinked(pairs: Seq<Option<PairEntry>>, x: int) -> Seq<Option<PairEntry>> {
    let next = pairs[x]->0.next();
    let prev = pairs[x]->0.prev();
    if prev == x {
        pairs
    } else {
        let first = pairs.update(prev as int, Some(with_next(pairs[prev as int]->0, next)));
        first.update(next as int, Some(with_prev(first[next as int]->0, prev)))
    }
}

/// The pairs after the pair at `x`, with its free half `side`, is put into the ring
/// before the pair at `head`, or into a ring of its own if `head` is `None`.
spec fn linked(pairs: Seq<Option<PairEntry>>, x: int, side: Side, head: Option<usize>) -> Seq<
    Option<PairEntry>,
> {
    match head {
        None => pairs.update(
            x,
            Some(
                PairEntry {
                    state: PairState::Ready { ready: side, next: x as usize, prev: x as usize },
                    ..pairs[x]->0
                },
            ),
        ),
        Some(head) => {
            let prev = pairs[head as int]->0.prev();
            let first = pairs.update(
                head as int,
                Some(with_prev(pairs[head as int]->0, x as usize)),
            );
            let second = first.update(
                prev as int,
                Some(with_next(first[prev as int]->0, x as usize)),
            );
            second.update(
                x,
                Some(
                    PairEntry {
                        state: PairState::Ready { ready: side, next: head, prev },
                        ..pairs[x]->0
                    },
                ),
            )
        },
    }
}

#[verifier::rlimit(40)]
proof fn lemma_unlinked(pairs: Seq<Option<PairEntry>>, x: int)
    requires
        ring_wf(pairs),
        in_ring(pairs, x),
    ensures
        ring_wf_without(unlinked(pairs, x), x),
        unlinked(pairs, x).len() == pairs.len(),
        unlinked(pairs, x)[x] == pairs[x],
        forall|i: int| #[trigger] in_ring(unlinked(pairs, x), i) <==> in_ring(pairs, i),
        forall|i: int|
            0 <= i < pairs.len() ==> ((#[trigger] unlinked(pairs, x)[i]) is Some <==> pairs[i]
                is Some),
        forall|i: int|
            0 <= i < pairs.len() && pairs[i] is Some ==> (#[trigger] unlinked(
                pairs,
                x,
            )[i])->0.pair_core() == pairs[i]->0.pair_core() && (unlinked(pairs, x)[i]->0.state
                is Ready <==> pairs[i]->0.state is Ready) && (pairs[i]->0.state is Ready
                ==> unlinked(pairs, x)[i]->0.state->ready == pairs[i]->0.state->ready),
        pairs[x]->0.prev() != x ==> in_ring(unlinked(pairs, x), pairs[x]->0.next() as int)
            && pairs[x]->0.next() != x,
        ring_at(pairs, x),
{
    reveal(ring_wf);
    reveal(ring_wf_without);
    let after = unlinked(pairs, x);
    let next = pairs[x]->0.next() as int;
    let prev = pairs[x]->0.prev() as int;
    assert(ring_at(pairs, x));
    assert forall|i: int| i != x && #[trigger] in_ring(after, i) implies {
        &&& ring_at(after, i)
        &&& after[i]->0.next() != x
        &&& after[i]->0.prev() != x
    } by {
        assert(in_ring(pairs, i));
        assert(ring_at(pairs, i));
        let ni = pairs[i]->0.next() as int;
        let pi = pairs[i]->0.prev() as int;
        assert(ring_at(pairs, ni));
        assert(ring_at(pairs, pi));
    }
}

/// What putting a pair into a ring leaves alone.
proof fn lemma_linked_frame(
    pairs: Seq<Option<PairEntry>>,
    x: int,
    side: Side,
    head: Option<usize>,
)
    requires
        0 <= x < pairs.len(),
        pairs[x] is Some,
        head matches Some(h) ==> h != x && in_ring(pairs, h as int) && in_ring(
            pairs,
            pairs[h as int]->0.prev() as int,
        ) && pairs[h as int]->0.prev() != x,
    ensures
        linked(pairs, x, side, head).len() == pairs.len(),
        in_ring(linked(pairs, x, side, head), x),
        linked(pairs, x, side, head)[x]->0.state->ready == side,
        forall|i: int|
            i != x ==> (#[trigger] in_ring(linked(pairs, x, side, head), i) <==> in_ring(
                pairs,
                i,
            )),
        forall|i: int|
            0 <= i < pairs.len() ==> ((#[trigger] linked(pairs, x, side, head)[i]) is Some
                <==> pairs[i] is Some),
        forall|i: int|
            0 <= i < pairs.len() && pairs[i] is Some ==> (#[trigger] linked(
                pairs,
                x,
                side,
                head,
            )[i])->0.pair_core() == pairs[i]->0.pair_core(),
        forall|i: int|
            0 <= i < pairs.len() && pairs[i] is Some && i != x ==> ((#[trigger] linked(
                pairs,
                x,
                side,
                head,
            )[i])->0.state is Ready <==> pairs[i]->0.state is Ready) && (pairs[i]->0.state
                is Ready ==> linked(pairs, x, side, head)[i]->0.state->ready
                == pairs[i]->0.state->ready),
{
}

/// A pair that is put into a ring of its own leaves rings behind.
proof fn lemma_linked_alone(pairs: Seq<Option<PairEntry>>, x: int, side: Side)
    requires
        ring_wf_without(pairs, x),
        0 <= x < pairs.len(),
        x <= usize::MAX,
        pairs[x] is Some,
    ensures
        ring_wf(linked(pairs, x, side, None)),
{
    reveal(ring_wf);
    reveal(ring_wf_without);
    let after = linked(pairs, x, side, None);
    assert forall|i: int| #[trigger] in_ring(after, i) implies ring_at(after, i) by {
        if i != x {
            assert(in_ring(pairs, i));
        }
    }
}

/// A pair that is put into a ring before another leaves rings behind.
#[verifier::rlimit(40)]
proof fn lemma_linked_before(pairs: Seq<Option<PairEntry>>, x: int, side: Side, h: usize)
    requires
        ring_wf_without(pairs, x),
        0 <= x < pairs.len(),
        x <= usize::MAX,
        pairs[x] is Some,
        h != x,
        in_ring(pairs, h as int),
    ensures
        ring_wf(linked(pairs, x, side, Some(h))),
        in_ring(pairs, pairs[h as int]->0.prev() as int),
        pairs[h as int]->0.prev() != x,
{
    reveal(ring_wf);
    reveal(ring_wf_without);
    let after = linked(pairs, x, side, Some(h));
    let p = pairs[h as int]->0.prev() as int;
    assert(ring_at(pairs, h as int));
    assert(in_ring(pairs, p));
    assert(ring_at(pairs, p));
    let new_h = if p == h {
        with_next(with_prev(pairs[h as int]->0, x as usize), x as usize)
    } else {
        with_prev(pairs[h as int]->0, x as usize)
    };
    let new_p = if p == h {
        new_h
    } else {
        with_next(pairs[p]->0, x as usize)
    };
    assert(after[h as int] == Some(new_h));
    assert(after[p] == Some(new_p));
    assert(after[x]->0.next() == h);
    assert(after[x]->0.prev() == p);
    assert(ring_at(after, x));
    assert(ring_at(after, h as int));
    assert(ring_at(after, p));
    assert forall|i: int| #[trigger] in_ring(after, i) implies ring_at(after, i) by {
        if i != x && i != h && i != p {
            assert(in_ring(pairs, i));
            assert(ring_at(pairs, i));
            assert(after[i] == pairs[i]);
            let ni = pairs[i]->0.next() as int;
            let pi = pairs[i]->0.prev() as int;
            assert(ni != x && pi != x);
            assert(ring_at(pairs, ni));
            assert(ring_at(pairs, pi));
            assert(ni != h || pairs[h as int]->0.prev() == i);
            assert(pi != p || pairs[p]->0.next() == i);
            assert(after[ni]->0.prev() == i);
            assert(after[pi]->0.next() == i);
        }
    }
}

/// The position after `k` in a ring of `n` pairs.
spec fn after(k: int, n: int) -> int {
    if k + 1 >= n {
        0
    } else {
        k + 1
    }
}

/// The pair at the position `k` of `order`.
spec fn at(order: Seq<int>, k: int) -> int {
    order[k]
}

/// Whether the slot `i` of `pairs` holds a pair that has a free half; the same as
/// `in_ring`.
spec fn member(pairs: Seq<Option<PairEntry>>, i: int) -> bool {
    in_ring(pairs, i)
}

/// Whether `order` lists the pairs that have a free half, each once, in the order of
/// their ring, starting with the pair `ready`; `ready` is `usize::MAX` if there is
/// none. The pair in the slot `skip` is left out of account.
#[verifier::opaque]
spec fn ordered(pairs: Seq<Option<PairEntry>>, order: Seq<int>, ready: usize, skip: int) -> bool {
    &&& forall|k: int|
        0 <= k < order.len() ==> in_ring(pairs, #[trigger] at(order, k)) && order[k] != skip
            && pairs[order[k]]->0.next() == order[after(k, order.len() as int)]
    &&& forall|i: int| #[trigger] member(pairs, i) && i != skip ==> order.contains(i)
    &&& forall|a: int, b: int|
        0 <= a < b < order.len() ==> #[trigger] at(order, a) != #[trigger] at(order, b)
    &&& order.len() > 0 ==> ready == order[0]
    &&& order.len() == 0 ==> ready == usize::MAX
}

/// The ring of a pair that is its own neighbour holds no other pair.
proof fn lemma_order_alone(pairs: Seq<Option<PairEntry>>, order: Seq<int>, ready: usize, x: int)
    requires
        ring_wf(pairs),
        ordered(pairs, order, ready, -1),
        in_ring(pairs, x),
        pairs.len() <= usize::MAX,
    ensures
        order.contains(x),
        pairs[x]->0.prev() == x <==> order.len() == 1,
        pairs[x]->0.next() == x <==> order.len() == 1,
        ready != usize::MAX,
        in_ring(pairs, ready as int),
{
    reveal(ordered);
    reveal(ring_wf);
    let n = order.len() as int;
    assert(member(pairs, x));
    let j = choose|j: int| 0 <= j < n && order[j] == x;
    assert(at(order, j) == x);
    assert(ring_at(pairs, x));
    let before = if j == 0 {
        n - 1
    } else {
        j - 1
    };
    assert(in_ring(pairs, at(order, before)));
    assert(ring_at(pairs, order[before]));
    assert(in_ring(pairs, at(order, 0)));
    if n > 1 {
        if j < after(j, n) {
            assert(at(order, j) != at(order, after(j, n)));
        } else {
            assert(at(order, after(j, n)) != at(order, j));
        }
        if before < j {
            assert(at(order, before) != at(order, j));
        } else {
            assert(at(order, j) != at(order, before));
        }
    }
}

/// The pairs of a ring in their order, after the pair at `x` was taken out of the ring.
#[verifier::rlimit(60)]
proof fn lemma_order_unlinked(pairs: Seq<Option<PairEntry>>, order: Seq<int>, ready: usize, x: int)
    requires
        ring_wf(pairs),
        ordered(pairs, order, ready, -1),
        in_ring(pairs, x),
        pairs.len() <= usize::MAX,
    ensures
        order.contains(x),
        ordered(
            unlinked(pairs, x),
            order.remove(order.index_of(x)),
            if pairs[x]->0.prev() == x {
                usize::MAX
            } else if ready == x {
                pairs[x]->0.next()
            } else {
                ready
            },
            x,
        ),
{
    lemma_order_alone(pairs, order, ready, x);
    lemma_unlinked(pairs, x);
    reveal(ordered);
    reveal(ring_wf);
    let n = order.len() as int;
    let j = order.index_of(x);
    assert(0 <= j < n && order[j] == x);
    order.remove_ensures(j);
    let shorter = order.remove(j);
    let now = unlinked(pairs, x);
    let before = if j == 0 {
        n - 1
    } else {
        j - 1
    };
    assert(ring_at(pairs, x));
    assert(in_ring(pairs, at(order, j)));
    assert(in_ring(pairs, at(order, before)));
    assert(ring_at(pairs, order[before]));
    assert(pairs[x]->0.prev() == order[before]);
    assert forall|k: int| 0 <= k < shorter.len() implies in_ring(now, #[trigger] at(shorter, k))
        && shorter[k] != x && now[shorter[k]]->0.next() == shorter[after(
        k,
        shorter.len() as int,
    )] by {
        let orig = if k < j {
            k
        } else {
            k + 1
        };
        assert(shorter[k] == order[orig]);
        assert(in_ring(pairs, at(order, orig)));
        if orig < j {
            assert(at(order, orig) != at(order, j));
        } else {
            assert(at(order, j) != at(order, orig));
        }
        let follows = after(k, shorter.len() as int);
        let follows_orig = if follows < j {
            follows
        } else {
            follows + 1
        };
        assert(shorter[follows] == order[follows_orig]);
        if orig != before {
            if orig < before {
                assert(at(order, orig) != at(order, before));
            } else {
                assert(at(order, before) != at(order, orig));
            }
            assert(now[order[orig]]->0.next() == pairs[order[orig]]->0.next());
        }
    }
    assert forall|i: int| #[trigger] member(now, i) && i != x implies shorter.contains(i) by {
        assert(in_ring(pairs, i));
        assert(member(pairs, i));
        let k = choose|k: int| 0 <= k < n && order[k] == i;
        let to = if k < j {
            k
        } else {
            k - 1
        };
        assert(shorter[to] == i);
    }
    assert forall|a: int, b: int| 0 <= a < b < shorter.len() implies #[trigger] at(shorter, a)
        != #[trigger] at(shorter, b) by {
        let oa = if a < j {
            a
        } else {
            a + 1
        };
        let ob = if b < j {
            b
        } else {
            b + 1
        };
        assert(shorter[a] == order[oa]);
        assert(shorter[b] == order[ob]);
        assert(at(order, oa) != at(order, ob));
    }
    if shorter.len() > 0 {
        if j == 0 {
            assert(shorter[0] == order[1]);
            assert(after(0, n) == 1);
        } else {
            assert(shorter[0] == order[0]);
            assert(at(order, 0) != at(order, j));
        }
    }
}

/// The pairs of a ring in their order, whatever is put into a slot that is left out of
/// account, as long as it is no pair with a free half.
proof fn lemma_order_settled(
    pairs: Seq<Option<PairEntry>>,
    order: Seq<int>,
    ready: usize,
    x: int,
    value: Option<PairEntry>,
)
    requires
        ordered(pairs, order, ready, x),
        0 <= x < pairs.len(),
        value matches Some(entry) ==> !(entry.state is Ready),
    ensures
        ordered(pairs.update(x, value), order, ready, -1),
{
    reveal(ordered);
    let now = pairs.update(x, value);
    assert forall|k: int| 0 <= k < order.len() implies in_ring(now, #[trigger] at(order, k))
        && order[k] != -1 && now[order[k]]->0.next() == order[after(k, order.len() as int)] by {
        assert(in_ring(pairs, at(order, k)));
    }
    assert forall|i: int| #[trigger] member(now, i) && i != -1 implies order.contains(i) by {
        assert(member(pairs, i) && i != x);
    }
}

/// The pairs of a ring in their order, with a slot that holds no pair of the ring left
/// out of account, whatever is put into it.
proof fn lemma_order_skipped(
    pairs: Seq<Option<PairEntry>>,
    order: Seq<int>,
    ready: usize,
    x: int,
    value: Option<PairEntry>,
)
    requires
        ordered(pairs, order, ready, -1),
        !in_ring(pairs, x),
        0 <= x < pairs.len(),
    ensures
        ordered(pairs.update(x, value), order, ready, x),
{
    reveal(ordered);
    let now = pairs.update(x, value);
    assert forall|k: int| 0 <= k < order.len() implies in_ring(now, #[trigger] at(order, k))
        && order[k] != x && now[order[k]]->0.next() == order[after(k, order.len() as int)] by {
        assert(in_ring(pairs, at(order, k)));
    }
    assert forall|i: int| #[trigger] member(now, i) && i != x implies order.contains(i) by {
        assert(member(pairs, i));
    }
}

/// The pairs of a ring in their order, after the pair at `x` was put into the ring
/// before its first pair.
#[verifier::rlimit(60)]
proof fn lemma_order_linked(
    pairs: Seq<Option<PairEntry>>,
    order: Seq<int>,
    ready: usize,
    x: int,
    side: Side,
)
    requires
        ring_wf_without(pairs, x),
        ordered(pairs, order, ready, x),
        0 <= x < pairs.len(),
        pairs.len() <= usize::MAX,
        pairs[x] is Some,
    ensures
        ready != usize::MAX ==> ready != x && in_ring(pairs, ready as int),
        ordered(
            linked(
                pairs,
                x,
                side,
                if ready == usize::MAX {
                    None
                } else {
                    Some(ready)
                },
            ),
            order.push(x),
            if ready == usize::MAX {
                x as usize
            } else {
                ready
            },
            -1,
        ),
{
    reveal(ordered);
    reveal(ring_wf_without);
    let n = order.len() as int;
    let head = if ready == usize::MAX {
        None
    } else {
        Some(ready)
    };
    let now = linked(pairs, x, side, head);
    let longer = order.push(x);
    if n > 0 {
        assert(in_ring(pairs, at(order, 0)));
        assert(ring_at(pairs, order[0]));
        assert(in_ring(pairs, at(order, n - 1)));
        assert(ring_at(pairs, order[n - 1]));
        assert(pairs[ready as int]->0.prev() == order[n - 1]);
    } else {
        assert(ready == usize::MAX);
    }
    lemma_linked_frame(pairs, x, side, head);
    assert forall|k: int| 0 <= k < longer.len() implies in_ring(now, #[trigger] at(longer, k))
        && longer[k] != -1 && now[longer[k]]->0.next() == longer[after(
        k,
        longer.len() as int,
    )] by {
        if k < n {
            assert(longer[k] == order[k]);
            assert(in_ring(pairs, at(order, k)));
            if k < n - 1 {
                assert(longer[k + 1] == order[k + 1]);
                assert(at(order, k) != at(order, n - 1));
                assert(now[order[k]]->0.next() == pairs[order[k]]->0.next());
            } else {
                let h = ready as int;
                let p = pairs[h]->0.prev() as int;
                assert(p == order[k]);
                assert(p != x);
                assert(now[p]->0.next() == x);
            }
        } else {
            assert(longer[k] == x);
            if n > 0 {
                assert(longer[0] == order[0]);
            }
        }
    }
    assert forall|i: int| #[trigger] member(now, i) && i != -1 implies longer.contains(i) by {
        if i == x {
            assert(longer[n] == x);
        } else {
            assert(member(pairs, i));
            let k = choose|k: int| 0 <= k < n && order[k] == i;
            assert(longer[k] == i);
        }
    }
    assert forall|a: int, b: int| 0 <= a < b < longer.len() implies #[trigger] at(longer, a)
        != #[trigger] at(longer, b) by {
        if b < n {
            assert(longer[a] == order[a] && longer[b] == order[b]);
            assert(at(order, a) != at(order, b));
        } else {
            assert(longer[a] == order[a]);
            assert(in_ring(pairs, at(order, a)));
        }
    }
}

/// The one pair of a ring, put into a vacant slot, or into a new one, where no pair had
/// a free half.
proof fn lemma_order_inserted(
    pairs: Seq<Option<PairEntry>>,
    order: Seq<int>,
    ready: usize,
    x: int,
    entry: PairEntry,
)
    requires
        ordered(pairs, order, ready, -1),
        ready == usize::MAX,
        pairs.len() < usize::MAX,
        0 <= x <= pairs.len(),
        x < pairs.len() ==> pairs[x] is None,
        entry.state is Ready,
        entry.next() == x,
    ensures
        order.len() == 0,
        ordered(put(pairs, x, entry), seq![x], x as usize, -1),
{
    reveal(ordered);
    if order.len() > 0 {
        assert(in_ring(pairs, at(order, 0)));
    }
    let now = put(pairs, x, entry);
    let one = seq![x];
    assert forall|k: int| 0 <= k < one.len() implies in_ring(now, #[trigger] at(one, k)) && one[k]
        != -1 && now[one[k]]->0.next() == one[after(k, one.len() as int)] by {}
    assert forall|i: int| #[trigger] member(now, i) && i != -1 implies one.contains(i) by {
        if i != x {
            assert(member(pairs, i));
            let k = choose|k: int| 0 <= k < order.len() && order[k] == i;
        } else {
            assert(one[0] == x);
        }
    }
}

/// Rings that do not touch the slot `x` stay rings whatever is put into the slot, as
/// long as it is no pair with a free half.
proof fn lemma_settled(pairs: Seq<Option<PairEntry>>, x: int, value: Option<PairEntry>)
    requires
        ring_wf_without(pairs, x),
        0 <= x < pairs.len(),
        value matches Some(entry) ==> !(entry.state is Ready),
    ensures
        ring_wf(pairs.update(x, value)),
{
    reveal(ring_wf);
    reveal(ring_wf_without);
    let after = pairs.update(x, value);
    assert forall|i: int| #[trigger] in_ring(after, i) implies ring_at(after, i) by {
        assert(in_ring(pairs, i));
    }
}

/// Rings do not touch a slot that holds no pair with a free half.
proof fn lemma_untouched(pairs: Seq<Option<PairEntry>>, x: int)
    requires
        ring_wf(pairs),
        !in_ring(pairs, x),
    ensures
        ring_wf_without(pairs, x),
{
    reveal(ring_wf);
    reveal(ring_wf_without);
    assert forall|i: int| i != x && #[trigger] in_ring(pairs, i) implies {
        &&& ring_at(pairs, i)
        &&& pairs[i]->0.next() != x
        &&& pairs[i]->0.prev() != x
    } by {
        assert(ring_at(pairs, i));
    }
}

#[verifier::opaque]
spec fn entries_wf(pairs: Seq<Option<PairEntry>>) -> bool {
    forall|i: int|
        0 <= i < pairs.len() ==> match #[trigger] pairs[i] {
            Some(entry) => entry.wf(),
            None => true,
        }
}

/// Taking the pair at `x` out of its ring and putting `value` into its slot, which is
/// no pair with a free half, leaves rings behind, and changes no other pair but for
/// its place in the ring.
proof fn lemma_replaced(pairs: Seq<Option<PairEntry>>, x: int, value: Option<PairEntry>)
    requires
        ring_wf(pairs),
        entries_wf(pairs),
        in_ring(pairs, x),
        value matches Some(entry) ==> !(entry.state is Ready) && entry.wf(),
    ensures
        ring_wf(unlinked(pairs, x).update(x, value)),
        entries_wf(unlinked(pairs, x).update(x, value)),
        cores_of(unlinked(pairs, x).update(x, value)) == cores_of(pairs).update(
            x,
            match value {
                Some(entry) => Some(entry.pair_core()),
                None => None,
            },
        ),
{
    reveal(entries_wf);
    lemma_unlinked(pairs, x);
    lemma_settled(unlinked(pairs, x), x, value);
    let after = unlinked(pairs, x).update(x, value);
    assert forall|i: int| 0 <= i < after.len() implies match #[trigger] after[i] {
        Some(entry) => entry.wf(),
        None => true,
    } by {
        if i != x {
            assert(unlinked(pairs, x)[i] is Some <==> pairs[i] is Some);
            if pairs[i] is Some {
                assert(pairs[i]->0.wf());
                assert(unlinked(pairs, x)[i]->0.pair_core() == pairs[i]->0.pair_core());
            }
        }
    }
    assert(cores_of(after) =~= cores_of(pairs).update(
        x,
        match value {
            Some(entry) => Some(entry.pair_core()),
            None => None,
        },
    )) by {
        assert forall|i: int| 0 <= i < after.len() && i != x implies cores_of(after)[i]
            == cores_of(pairs)[i] by {
            assert(unlinked(pairs, x)[i] is Some <==> pairs[i] is Some);
            if pairs[i] is Some {
                assert(unlinked(pairs, x)[i]->0.pair_core() == pairs[i]->0.pair_core());
            }
        }
    }
}

/// Rings that do not touch the slot `x` do not touch it whatever is put into it.
proof fn lemma_without_update(pairs: Seq<Option<PairEntry>>, x: int, value: Option<PairEntry>)
    requires
        ring_wf_without(pairs, x),
        0 <= x < pairs.len(),
    ensures
        ring_wf_without(pairs.update(x, value), x),
{
    reveal(ring_wf_without);
    let after = pairs.update(x, value);
    assert forall|i: int| i != x && #[trigger] in_ring(after, i) implies {
        &&& ring_at(after, i)
        &&& after[i]->0.next() != x
        &&& after[i]->0.prev() != x
    } by {
        assert(in_ring(pairs, i));
    }
}

/// A well-formed pair in place of another leaves well-formed pairs.
proof fn lemma_entries_update(pairs: Seq<Option<PairEntry>>, x: int, entry: PairEntry)
    requires
        entries_wf(pairs),
        0 <= x < pairs.len(),
        entry.wf(),
    ensures
        entries_wf(pairs.update(x, Some(entry))),
{
    reveal(entries_wf);
}

/// Every pair is well-formed.
proof fn lemma_entry_wf(pairs: Seq<Option<PairEntry>>, i: int)
    requires
        entries_wf(pairs),
        0 <= i < pairs.len(),
        pairs[i] is Some,
    ensures
        pairs[i]->0.wf(),
{
    reveal(entries_wf);
}

/// A pair that is put into a vacant slot, or into a new one, touches no ring.
proof fn lemma_inserted(pairs: Seq<Option<PairEntry>>, x: int, entry: PairEntry)
    requires
        ring_wf(pairs),
        entries_wf(pairs),
        0 <= x <= pairs.len(),
        x < pairs.len() ==> pairs[x] is None,
        entry.wf(),
    ensures
        ring_wf_without(put(pairs, x, entry), x),
        entries_wf(put(pairs, x, entry)),
        cores_of(put(pairs, x, entry)) == put(cores_of(pairs), x, entry.pair_core()),
{
    reveal(ring_wf);
    reveal(ring_wf_without);
    reveal(entries_wf);
    let extended = put(pairs, x, entry);
    assert forall|i: int| i != x && #[trigger] in_ring(extended, i) implies {
        &&& ring_at(extended, i)
        &&& extended[i]->0.next() != x
        &&& extended[i]->0.prev() != x
    } by {
        assert(in_ring(pairs, i));
        assert(ring_at(pairs, i));
        assert(in_ring(pairs, pairs[i]->0.next() as int));
        assert(in_ring(pairs, pairs[i]->0.prev() as int));
    }
    assert(cores_of(extended) =~= put(cores_of(pairs), x, entry.pair_core()));
}

/// Putting a pair into a ring changes nothing else of the pairs.
proof fn lemma_linked_cores(
    pairs: Seq<Option<PairEntry>>,
    x: int,
    side: Side,
    head: Option<usize>,
    entry: PairEntry,
)
    requires
        entries_wf(pairs.update(x, Some(entry))),
        0 <= x < pairs.len(),
        pairs[x] is Some,
        entry.pair_core() == pairs[x]->0.pair_core(),
        entry.state == (PairState::Ready { ready: side, next: 0, prev: 0 }),
        head matches Some(h) ==> h != x && in_ring(pairs, h as int) && in_ring(
            pairs,
            pairs[h as int]->0.prev() as int,
        ) && pairs[h as int]->0.prev() != x,
    ensures
        entries_wf(linked(pairs, x, side, head)),
        cores_of(linked(pairs, x, side, head)) == cores_of(pairs),
{
    reveal(entries_wf);
    lemma_linked_frame(pairs, x, side, head);
    let after = linked(pairs, x, side, head);
    let with_entry = pairs.update(x, Some(entry));
    assert forall|i: int| 0 <= i < after.len() implies match #[trigger] after[i] {
        Some(e) => e.wf(),
        None => true,
    } by {
        if after[i] is Some {
            assert(with_entry[i] is Some);
            assert(with_entry[i]->0.wf());
            assert(after[i]->0.pair_core() == pairs[i]->0.pair_core());
        }
    }
    assert(cores_of(after) =~= cores_of(pairs)) by {
        assert forall|i: int| 0 <= i < after.len() implies cores_of(after)[i] == cores_of(
            pairs,
        )[i] by {
            assert(after[i] is Some <==> pairs[i] is Some);
        }
    }
}

/// The sequence `cores` with `value` at `index`, which is a slot of the sequence or
/// one past its last slot.
pub open spec fn put<T>(cores: Seq<Option<T>>, index: int, value: T) -> Seq<Option<T>> {
    if index < cores.len() {
        cores.update(index, Some(value))
    } else {
        cores.push(Some(value))
    }
}

/// One size class: the pairs whose halves have the size of the class.
struct Size {
    /// A pair that has a free half; `usize::MAX` if there is none.
    ready: usize,
    pairs: Slab<PairEntry>,
    /// The pairs that have a free half, in the order of their ring, `ready` first.
    order: Ghost<Seq<int>>,
}

spec fn cores_of(pairs: Seq<Option<PairEntry>>) -> Seq<Option<PairCore>> {
    Seq::new(
        pairs.len(),
        |i: int|
            match pairs[i] {
                Some(entry) => Some(entry.pair_core()),
                None => None,
            },
    )
}

impl Size {
    /// The pairs of the class, apart from their places in the ring.
    spec fn cores(&self) -> Seq<Option<PairCore>> {
        cores_of(self.pairs@)
    }

    /// Whether some pair of the class is known to have a free half.
    spec fn has_ready(&self) -> bool {
        self.ready != usize::MAX
    }

    /// Whether the class has room for one more pair.
    spec fn has_room(&self) -> bool {
        self.pairs@.len() < usize::MAX / 2
    }

    spec fn wf(&self) -> bool {
        &&& self.pairs.wf()
        &&& self.pairs@.len() <= usize::MAX / 2
        &&& self.ready != usize::MAX ==> in_ring(self.pairs@, self.ready as int)
        &&& ring_wf(self.pairs@)
        &&& entries_wf(self.pairs@)
        &&& ordered(self.pairs@, self.order@, self.ready, -1)
    }

    fn new() -> (r: Self)
        ensures
            r.wf(),
            r.cores().len() == 0,
            !r.has_ready(),
            r.has_room(),
    {
        let r = Size { pairs: Slab::new(), ready: usize::MAX, order: Ghost(Seq::empty()) };
        proof {
            reveal(ring_wf);
            reveal(entries_wf);
            reveal(ordered);
        }
        r
    }

    /// Sets the `next` of the pair at `index`, which has a free half.
    fn set_next(&mut self, index: usize, value: usize)
        requires
            old(self).pairs.wf(),
            in_ring(old(self).pairs@, index as int),
        ensures
            final(self).pairs.wf(),
            final(self).ready == old(self).ready,
            final(self).order == old(self).order,
            final(self).pairs@ == old(self).pairs@.update(
                index as int,
                Some(with_next(old(self).pairs@[index as int]->0, value)),
            ),
            final(self).pairs.spec_next_index() == old(self).pairs.spec_next_index(),
    {
        let entry = *self.pairs.get(index);
        match entry.state {
            PairState::Ready { ready, prev, .. } => {
                let _ = self.pairs.replace(
                    index,
                    PairEntry { state: PairState::Ready { ready, next: value, prev }, ..entry },
                );
            },
            PairState::Exhausted => {},
        }
    }

    /// Sets the `prev` of the pair at `index`, which has a free half.
    fn set_prev(&mut self, index: usize, value: usize)
        requires
            old(self).pairs.wf(),
            in_ring(old(self).pairs@, index as int),
        ensures
            final(self).pairs.wf(),
            final(self).ready == old(self).ready,
            final(self).order == old(self).order,
            final(self).pairs@ == old(self).pairs@.update(
                index as int,
                Some(with_prev(old(self).pairs@[index as int]->0, value)),
            ),
            final(self).pairs.spec_next_index() == old(self).pairs.spec_next_index(),
    {
        let entry = *self.pairs.get(index);
        match entry.state {
            PairState::Ready { ready, next, .. } => {
                let _ = self.pairs.replace(
                    index,
                    PairEntry { state: PairState::Ready { ready, next, prev: value }, ..entry },
                );
            },
            PairState::Exhausted => {},
        }
    }

    /// Takes the pair at `index` out of its ring. The pair's own state is left as it
    /// is: the caller overwrites or removes the pair.
    fn unlink(&mut self, index: usize)
        requires
            old(self).wf(),
            in_ring(old(self).pairs@, index as int),
        ensures
            final(self).pairs.wf(),
            final(self).pairs@ == unlinked(old(self).pairs@, index as int),
            final(self).pairs.spec_next_index() == old(self).pairs.spec_next_index(),
            final(self).ready != index,
            final(self).ready != usize::MAX ==> in_ring(
                final(self).pairs@,
                final(self).ready as int,
            ),
            ordered(final(self).pairs@, final(self).order@, final(self).ready, index as int),
    {
        let entry = *self.pairs.get(index);
        proof {
            lemma_unlinked(self.pairs@, index as int);
            lemma_order_unlinked(self.pairs@, self.order@, self.ready, index as int);
            lemma_order_alone(self.pairs@, self.order@, self.ready, index as int);
        }
        match entry.state {
            PairState::Ready { next, prev, .. } => {
                if prev == index {
                    self.ready = usize::MAX;
                } else {
                    self.set_next(prev, next);
                    self.set_prev(next, prev);
                    if self.ready == index {
                        self.ready = next;
                    }
                }
            },
            PairState::Exhausted => {},
        }
        proof {
            self.order@ = old(self).order@.remove(old(self).order@.index_of(index as int));
        }
    }

    /// Takes the free half of a pair that has one. Returns `None` if no pair of the
    /// class is known to have a free half.
    fn acquire(&mut self, size: u64) -> (r: Option<SizeBlockEntry>)
        requires
            old(self).wf(),
            forall|i: int|
                0 <= i < old(self).cores().len() ==> match #[trigger] old(self).cores()[i] {
                    Some(pair) => pair.offset + size <= u64::MAX,
                    None => true,
                },
        ensures
            final(self).wf(),
            r is None <==> !old(self).has_ready(),
            r is None ==> *final(self) == *old(self),
            r matches Some(entry) ==> {
                let pair = spec_node_pair(entry.index) as int;
                let side = spec_node_side(entry.index);
                &&& pair == old(self).ready
                &&& old(self).cores()[pair] matches Some(before)
                &&& 0 <= pair < old(self).cores().len()
                &&& before.usage(side) == Use::Free
                &&& before.usage(side.other()) != Use::Free
                &&& entry.chunk == before.chunk
                &&& entry.offset == half_offset(before.offset, side, size)
                &&& final(self).cores() == old(self).cores().update(
                    pair,
                    Some(before.with_usage(side, Use::Held)),
                )
            },
    {
        if self.ready == usize::MAX {
            return None;
        }
        let index = self.ready;
        let entry = *self.pairs.get(index);
        assert(old(self).cores()[index as int] == Some(entry.pair_core()));
        match entry.state {
            PairState::Ready { ready, .. } => {
                proof {
                    lemma_unlinked(self.pairs@, index as int);
                    lemma_entry_wf(self.pairs@, index as int);
                }
                self.unlink(index);
                let taken = match ready {
                    Side::Left => PairEntry {
                        state: PairState::Exhausted,
                        left: Ghost(Use::Held),
                        ..entry
                    },
                    Side::Right => PairEntry {
                        state: PairState::Exhausted,
                        right: Ghost(Use::Held),
                        ..entry
                    },
                };
                let ghost taken_out = self.pairs@;
                let _ = self.pairs.replace(index, taken);
                proof {
                    lemma_order_settled(
                        taken_out,
                        self.order@,
                        self.ready,
                        index as int,
                        Some(taken),
                    );
                    lemma_replaced(old(self).pairs@, index as int, Some(taken));
                    assert(taken.pair_core() == entry.pair_core().with_usage(ready, Use::Held));
                }
                let offset = match ready {
                    Side::Left => entry.offset,
                    Side::Right => entry.offset + size,
                };
                Some(SizeBlockEntry { chunk: entry.chunk, offset, index: node_index(index, ready) })
            },
            PairState::Exhausted => None,
        }
    }

    /// Adds a pair whose left half is in use.
    fn add_pair_and_acquire_left(&mut self, chunk: usize, offset: u64, parent: Option<usize>) -> (r:
        SizeBlockEntry)
        requires
            old(self).wf(),
            !old(self).has_ready(),
            old(self).has_room(),
        ensures
            final(self).wf(),
            r.chunk == chunk,
            r.offset == offset,
            r.index % 2 == 0,
            ({
                let pair = spec_node_pair(r.index) as int;
                &&& 0 <= pair <= old(self).cores().len()
                &&& pair < old(self).cores().len() ==> old(self).cores()[pair] is None
                &&& pair == old(self).pairs.spec_next_index()
                &&& pair < usize::MAX / 2
                &&& final(self).ready == pair
                &&& final(self).cores() == put(
                    old(self).cores(),
                    pair,
                    PairCore { chunk, offset, parent, left: Use::Held, right: Use::Free },
                )
            }),
    {
        proof {
            self.pairs.lemma_next_index();
        }
        let index = self.pairs.next_index();
        let entry = PairEntry {
            state: PairState::Ready { ready: Side::Right, next: index, prev: index },
            chunk,
            offset,
            parent,
            left: Ghost(Use::Held),
            right: Ghost(Use::Free),
        };
        let _ = self.pairs.insert(entry);
        self.ready = index;
        proof {
            lemma_order_inserted(
                old(self).pairs@,
                old(self).order@,
                old(self).ready,
                index as int,
                entry,
            );
            self.order@ = seq![index as int];
            let extended = put(old(self).pairs@, index as int, entry);
            lemma_inserted(old(self).pairs@, index as int, entry);
            lemma_linked_alone(extended, index as int, Side::Right);
            assert(self.pairs@ =~= extended);
            assert(linked(extended, index as int, Side::Right, None) =~= extended);
        }
        SizeBlockEntry { chunk, offset, index: node_index(index, Side::Left) }
    }
}

impl Size {
    /// Gives back the node with index `index`, which is in use. If its buddy is in use,
    /// the pair now has a free half. If its buddy is free, the two are joined: the pair
    /// is removed, and the node that it was split from, or the chunk, is returned.
    fn release(&mut self, index: usize) -> (r: Release)
        requires
            old(self).wf(),
            0 <= spec_node_pair(index) < old(self).cores().len(),
            old(self).cores()[spec_node_pair(index) as int] matches Some(pair) && pair.usage(
                spec_node_side(index),
            ) == Use::Held,
        ensures
            final(self).wf(),
            final(self).cores().len() == old(self).cores().len(),
            ({
                let pair = spec_node_pair(index) as int;
                let side = spec_node_side(index);
                let before = old(self).cores()[pair]->0;
                match r {
                    Release::Done => {
                        &&& before.usage(side.other()) != Use::Free
                        &&& final(self).cores() == old(self).cores().update(
                            pair,
                            Some(before.with_usage(side, Use::Free)),
                        )
                        &&& final(self).has_ready()
                    },
                    Release::Parent(parent) => {
                        &&& before.usage(side.other()) == Use::Free
                        &&& before.parent == Some(parent)
                        &&& final(self).cores() == old(self).cores().update(pair, None)
                    },
                    Release::Chunk(chunk) => {
                        &&& before.usage(side.other()) == Use::Free
                        &&& before.parent is None
                        &&& chunk == before.chunk
                        &&& final(self).cores() == old(self).cores().update(pair, None)
                    },
                }
            }),
    {
        let side = if index % 2 == 0 {
            Side::Left
        } else {
            Side::Right
        };
        let pair = index / 2;
        let entry = *self.pairs.get(pair);
        proof {
            lemma_entry_wf(self.pairs@, pair as int);
            assert(old(self).cores()[pair as int] == Some(entry.pair_core()));
        }
        match entry.state {
            PairState::Exhausted => {
                let ghost freed = match side {
                    Side::Left => PairEntry { left: Ghost(Use::Free), ..entry },
                    Side::Right => PairEntry { right: Ghost(Use::Free), ..entry },
                };
                let ghost base = self.pairs@.update(pair as int, Some(freed));
                let ghost head = if self.ready == usize::MAX {
                    None
                } else {
                    Some(self.ready)
                };
                proof {
                    lemma_order_skipped(
                        self.pairs@,
                        self.order@,
                        self.ready,
                        pair as int,
                        Some(freed),
                    );
                    lemma_untouched(self.pairs@, pair as int);
                    lemma_without_update(self.pairs@, pair as int, Some(freed));
                    lemma_order_linked(base, self.order@, self.ready, pair as int, side);
                    lemma_entries_update(
                        self.pairs@,
                        pair as int,
                        PairEntry {
                            state: PairState::Ready { ready: side, next: 0, prev: 0 },
                            ..freed
                        },
                    );
                    assert(base.update(
                        pair as int,
                        Some(
                            PairEntry {
                                state: PairState::Ready { ready: side, next: 0, prev: 0 },
                                ..freed
                            },
                        ),
                    ) =~= self.pairs@.update(
                        pair as int,
                        Some(
                            PairEntry {
                                state: PairState::Ready { ready: side, next: 0, prev: 0 },
                                ..freed
                            },
                        ),
                    ));
                    if head is Some {
                        lemma_linked_before(base, pair as int, side, self.ready);
                    } else {
                        lemma_linked_alone(base, pair as int, side);
                    }
                    lemma_linked_cores(
                        base,
                        pair as int,
                        side,
                        head,
                        PairEntry {
                            state: PairState::Ready { ready: side, next: 0, prev: 0 },
                            ..freed
                        },
                    );
                    lemma_linked_frame(base, pair as int, side, head);
                    assert(cores_of(base) =~= old(self).cores().update(
                        pair as int,
                        Some(entry.pair_core().with_usage(side, Use::Free)),
                    ));
                }
                let (next, prev) = if self.ready == usize::MAX {
                    self.ready = pair;
                    (pair, pair)
                } else {
                    let next = self.ready;
                    let prev = match self.pairs.get(next).state {
                        PairState::Ready { prev, .. } => prev,
                        PairState::Exhausted => next,
                    };
                    self.set_prev(next, pair);
                    self.set_next(prev, pair);
                    (next, prev)
                };
                let linked_entry = match side {
                    Side::Left => PairEntry {
                        state: PairState::Ready { ready: side, next, prev },
                        left: Ghost(Use::Free),
                        ..entry
                    },
                    Side::Right => PairEntry {
                        state: PairState::Ready { ready: side, next, prev },
                        right: Ghost(Use::Free),
                        ..entry
                    },
                };
                let _ = self.pairs.replace(pair, linked_entry);
                proof {
                    assert(self.pairs@ =~= linked(base, pair as int, side, head));
                    self.order@ = old(self).order@.push(pair as int);
                }
                Release::Done
            },
            PairState::Ready { .. } => {
                proof {
                    lemma_unlinked(self.pairs@, pair as int);
                }
                self.unlink(pair);
                let ghost taken_out = self.pairs@;
                let _ = self.pairs.remove(pair);
                proof {
                    lemma_order_settled(taken_out, self.order@, self.ready, pair as int, None);
                    lemma_replaced(old(self).pairs@, pair as int, None);
                }
                match entry.parent {
                    Some(parent) => Release::Parent(parent),
                    None => Release::Chunk(entry.chunk),
                }
            },
        }
    }
}

/// A block of a buddy allocator.
#[derive(Debug)]
pub struct BuddyBlock<M> {
    /// The memory object of the block's chunk.
    pub memory: M,
    /// Host address of the block's first byte, if the chunk is mapped.
    pub ptr: Option<usize>,
    /// Size of the block.
    pub size: u64,
    /// Index of the block's chunk.
    pub chunk: usize,
    /// Offset of the block in its chunk.
    pub offset: u64,
    /// Index of the block's node in its size class.
    pub index: usize,
}

/// A memory object that a buddy allocator splits into blocks.
struct Chunk<M> {
    memory: M,
    /// Host address of the chunk's first byte, if the chunk is mapped.
    ptr: Option<usize>,
    size: u64,
    /// The class and the slot of the pair that holds the two halves of the chunk.
    root: Ghost<(int, int)>,
}

/// The bytes of the chunks of `chunks`, taken together.
pub open spec fn total_size(chunks: Seq<Option<ChunkInfo>>) -> nat
    decreases chunks.len(),
{
    if chunks.len() == 0 {
        0
    } else {
        total_size(chunks.drop_last()) + match chunks.last() {
            Some(info) => info.size as nat,
            None => 0nat,
        }
    }
}

proof fn lemma_total_push(chunks: Seq<Option<ChunkInfo>>, x: Option<ChunkInfo>)
    ensures
        total_size(chunks.push(x)) == total_size(chunks) + match x {
            Some(info) => info.size as nat,
            None => 0nat,
        },
{
    assert(chunks.push(x).drop_last() =~= chunks);
}

proof fn lemma_total_update(chunks: Seq<Option<ChunkInfo>>, i: int, x: Option<ChunkInfo>)
    requires
        0 <= i < chunks.len(),
    ensures
        total_size(chunks.update(i, x)) + (match chunks[i] {
            Some(info) => info.size as nat,
            None => 0nat,
        }) == total_size(chunks) + match x {
            Some(info) => info.size as nat,
            None => 0nat,
        },
    decreases chunks.len(),
{
    if i == chunks.len() - 1 {
        assert(chunks.update(i, x).drop_last() =~= chunks.drop_last());
    } else {
        lemma_total_update(chunks.drop_last(), i, x);
        assert(chunks.update(i, x).drop_last() =~= chunks.drop_last().update(i, x));
    }
}

/// What a half is used for, given whether it is free and what the busy nodes of its
/// class are split into.
spec fn refined(plain: Use, class: int, node: int, splits: Map<(int, int), usize>) -> Use {
    match plain {
        Use::Free => Use::Free,
        _ => if splits.dom().contains((class, node)) {
            Use::Split(splits[(class, node)])
        } else {
            Use::Held
        },
    }
}

spec fn refined_class(
    cores: Seq<Option<PairCore>>,
    class: int,
    splits: Map<(int, int), usize>,
) -> Seq<Option<PairCore>> {
    Seq::new(
        cores.len(),
        |p: int|
            match cores[p] {
                Some(pair) => Some(
                    PairCore {
                        left: refined(pair.left, class, 2 * p, splits),
                        right: refined(pair.right, class, 2 * p + 1, splits),
                        ..pair
                    },
                ),
                None => None,
            },
    )
}

/// The class whose halves have `size` bytes, where those of class 0 have `unit` bytes.
pub open spec fn class_for(unit: u64, size: u64) -> int {
    choose|class: int| 0 <= class && #[trigger] size_of_class(unit, class) == size
}

/// Size of the halves of the pairs of class `class`, where those of class 0 have
/// `unit` bytes.
pub open spec fn size_of_class(unit: u64, class: int) -> int {
    unit * pow2(class as nat)
}

/// A buddy allocator for one memory type.
///
/// The halves of the pairs of class `s` have `minimal_size * 2^s` bytes. A request is
/// served with a half of the smallest class that it fits into: a free one if there is
/// one, else the left half of a pair that a half of the next larger class is split
/// into, and so on up to a new chunk.
pub struct BuddyAllocator<M> {
    minimal_size: u64,
    chunks: Slab<Chunk<M>>,
    sizes: Vec<Size>,
    memory_type: u32,
    props: MemoryPropertyFlags,
    atom_mask: u64,
    /// The nodes that are split, each with the pair that it is split into.
    splits: Ghost<Map<(int, int), usize>>,
}

impl<M> BuddyAllocator<M> {
    /// The pairs and the chunks of the allocator.
    pub closed spec fn tree(&self) -> Tree {
        Tree {
            unit: self.minimal_size,
            classes: Seq::new(
                self.sizes@.len(),
                |class: int| refined_class(self.sizes@[class].cores(), class, self.splits@),
            ),
            chunks: Seq::new(
                self.chunks@.len(),
                |chunk: int|
                    match self.chunks@[chunk] {
                        Some(c) => Some(
                            ChunkInfo { size: c.size, root_class: c.root@.0, root_pair: c.root@.1 },
                        ),
                        None => None,
                    },
            ),
        }
    }

    /// What holds of the parts of the allocator, apart from the tree.
    spec fn parts_wf(&self) -> bool {
        &&& self.chunks.wf()
        &&& forall|class: int|
            0 <= class < self.sizes@.len() ==> (#[trigger] self.sizes@[class]).wf()
        &&& forall|chunk: int|
            0 <= chunk < self.chunks@.len() ==> match #[trigger] self.chunks@[chunk] {
                Some(c) => (c.ptr is Some) == self.props.spec_is_host_visible() && match c.ptr {
                    Some(base) => base + c.size <= usize::MAX,
                    None => true,
                },
                None => true,
            }
        &&& forall|class: int, node: int| #[trigger]
            self.splits@.dom().contains((class, node)) ==> {
                &&& 0 <= class < self.sizes@.len()
                &&& 0 <= node
                &&& node / 2 < self.sizes@[class].cores().len()
                &&& self.sizes@[class].cores()[node / 2] matches Some(pair) && pair.usage(
                    spec_node_side(node as usize),
                ) == Use::Held
                &&& node <= usize::MAX
            }
    }

    /// The invariant of the allocator.
    pub closed spec fn wf(&self) -> bool {
        &&& self.parts_wf()
        &&& self.tree().wf()
        &&& self.tree().disjoint()
        &&& self.tree().aligned()
        &&& crate::align::spec_is_power_of_two(self.minimal_size)
    }

    /// The host address of the first byte of the chunk with index `chunk`. `None` if
    /// there is no such chunk, or if it is not mapped.
    pub closed spec fn chunk_base(&self, chunk: int) -> Option<usize> {
        if 0 <= chunk < self.chunks@.len() {
            match self.chunks@[chunk] {
                Some(c) => c.ptr,
                None => None,
            }
        } else {
            None
        }
    }

    /// The memory object of the chunk with index `chunk`. `None` if there is no such
    /// chunk.
    pub closed spec fn chunk_memory(&self, chunk: int) -> Option<M> {
        if 0 <= chunk < self.chunks@.len() {
            match self.chunks@[chunk] {
                Some(c) => Some(c.memory),
                None => None,
            }
        } else {
            None
        }
    }

    /// Whether the chunks that `before` and `self` both hold have in `self` the memory
    /// object and the host address that they have in `before`.
    pub open spec fn keeps_chunks_of(&self, before: &Self) -> bool {
        forall|chunk: int|
            #![trigger self.chunk_memory(chunk)]
            #![trigger self.chunk_base(chunk)]
            before.tree().chunk_occ(chunk) && self.tree().chunk_occ(chunk) ==> self.chunk_memory(
                chunk,
            ) == before.chunk_memory(chunk) && self.chunk_base(chunk) == before.chunk_base(chunk)
    }

    /// Size of the smallest blocks.
    pub closed spec fn spec_minimal_size(&self) -> u64 {
        self.minimal_size
    }

    /// Index of the memory type that the chunks are allocated from.
    pub closed spec fn spec_memory_type(&self) -> u32 {
        self.memory_type
    }

    /// Properties of the memory type.
    pub closed spec fn spec_props(&self) -> MemoryPropertyFlags {
        self.props
    }

    /// The mask that every block is aligned to, whatever the request asks for.
    pub closed spec fn spec_atom_mask(&self) -> u64 {
        self.atom_mask
    }

    /// Whether everything but the pairs and the chunks is the same in `self` and
    /// `other`.
    pub open spec fn same_parameters(&self, other: &Self) -> bool {
        &&& self.spec_minimal_size() == other.spec_minimal_size()
        &&& self.spec_memory_type() == other.spec_memory_type()
        &&& self.spec_props() == other.spec_props()
        &&& self.spec_atom_mask() == other.spec_atom_mask()
    }

    /// The number of memory objects that the allocator holds.
    pub open spec fn objects_held(&self) -> nat {
        count_some(self.tree().chunks)
    }

    /// The bytes that the allocator's memory objects take from the heap.
    pub open spec fn bytes_held(&self) -> nat {
        total_size(self.tree().chunks)
    }

    /// The live blocks of the allocator: those allocated and not yet given back.
    pub open spec fn live(&self) -> Set<BuddyKey> {
        self.tree().live()
    }
}

impl<M> BuddyAllocator<M> {
    /// A new allocator, which holds no chunk. Its smallest blocks are `minimal_size`
    /// bytes, and its first chunk is `initial_dedicated_size` bytes, or `minimal_size`
    /// if that is more.
    pub fn new(
        minimal_size: u64,
        initial_dedicated_size: u64,
        memory_type: u32,
        props: MemoryPropertyFlags,
        atom_mask: u64,
    ) -> (r: Self)
        requires
            crate::align::spec_is_power_of_two(minimal_size),
            crate::align::spec_is_power_of_two(initial_dedicated_size),
        ensures
            r.wf(),
            r.spec_minimal_size() == minimal_size,
            r.spec_memory_type() == memory_type,
            r.spec_props() == props,
            r.spec_atom_mask() == atom_mask | (minimal_size - 1) as u64,
            r.objects_held() == 0,
            r.bytes_held() == 0,
            r.live() == Set::<BuddyKey>::empty(),
            r.tree().class_size(r.tree().classes.len() as int) == if initial_dedicated_size
                > minimal_size {
                initial_dedicated_size
            } else {
                minimal_size
            },
            forall|start: int| 0 <= start ==> #[trigger] r.grows_for(start),
            forall|chunk: int| #[trigger] r.chunk_memory(chunk) is None,
    {
        let mut sizes: Vec<Size> = Vec::new();
        let mut class_size: u64 = minimal_size;
        proof {
            lemma2_to64();
            assert(minimal_size * pow2(0) == minimal_size) by (nonlinear_arith)
                requires
                    pow2(0) == 1,
            ;
        }
        while class_size < initial_dedicated_size
            invariant
                class_size == minimal_size * pow2(sizes@.len()),
                minimal_size >= 1,
                class_size <= initial_dedicated_size || class_size == minimal_size,
                class_size >= minimal_size,
                crate::align::spec_is_power_of_two(class_size),
                crate::align::spec_is_power_of_two(initial_dedicated_size),
                forall|class: int|
                    #![trigger sizes@[class]]
                    0 <= class < sizes@.len() ==> sizes@[class].wf() && sizes@[class].cores().len()
                        == 0 && sizes@[class].has_room() && !sizes@[class].has_ready(),
            decreases initial_dedicated_size - class_size,
        {
            proof {
                lemma_pow2_unfold((sizes@.len() + 1) as nat);
                assert(minimal_size * (2 * pow2(sizes@.len())) == 2 * (minimal_size * pow2(
                    sizes@.len(),
                ))) by (nonlinear_arith);
                let a = class_size;
                let b = initial_dedicated_size;
                assert(a != 0 && a & ((a - 1) as u64) == 0 && b != 0 && b & ((b - 1) as u64) == 0
                    && a < b ==> 2 * a <= b && (2 * a) as u64 != 0 && ((2 * a) as u64) & ((2 * a
                    - 1) as u64) == 0) by (bit_vector);
            }
            class_size = class_size * 2;
            sizes.push(Size::new());
        }
        let r = BuddyAllocator {
            minimal_size,
            chunks: Slab::new(),
            sizes,
            memory_type,
            props,
            atom_mask: atom_mask | (minimal_size - 1),
            splits: Ghost(Map::empty()),
        };
        proof {
            reveal(Tree::wf);
            assert(r.tree().chunks =~= Seq::<Option<ChunkInfo>>::empty());
            assert(r.live() =~= Set::<BuddyKey>::empty());
            r.tree().lemma_disjoint_empty();
            r.tree().lemma_aligned_empty();
            assert forall|start: int| 0 <= start implies #[trigger] r.grows_for(start) by {
                assert forall|c: int| start <= c < r.tree().classes.len() implies !#[trigger] r.class_ready(
                    c,
                ) by {
                    assert(!r.sizes@[c].has_ready());
                }
                assert forall|c: int| start <= c < r.tree().classes.len() implies #[trigger] r.class_room(
                    c,
                ) by {
                    assert(r.sizes@[c].has_room());
                }
            }
        }
        r
    }

    fn host_visible(&self) -> (r: bool)
        ensures
            r == self.props.spec_is_host_visible(),
    {
        self.props.is_host_visible()
    }

    /// Takes a free half of the class `class`, if a pair of the class is known to have
    /// one.
    fn acquire_at(&mut self, class: usize, class_size: u64) -> (r: Option<SizeBlockEntry>)
        requires
            old(self).wf(),
            class < old(self).sizes@.len(),
            class_size == old(self).tree().class_size(class as int),
        ensures
            final(self).wf(),
            final(self).same_parameters(old(self)),
            final(self).chunks == old(self).chunks,
            final(self).splits == old(self).splits,
            final(self).sizes@.len() == old(self).sizes@.len(),
            forall|other: int|
                0 <= other < old(self).sizes@.len()
                    && other != class ==> final(self).sizes@[other] == old(self).sizes@[other],
            r is None ==> final(self).sizes@ == old(self).sizes@ && final(self).tree() == old(
                self,
            ).tree() && !old(self).sizes@[class as int].has_ready(),
            r is Some ==> old(self).sizes@[class as int].has_ready(),
            old(self).tree().within(final(self).tree()),
            r matches Some(entry) ==> {
                let pair = spec_node_pair(entry.index) as int;
                let side = spec_node_side(entry.index);
                &&& pair == old(self).sizes@[class as int].ready
                &&& old(self).tree().occ(class as int, pair)
                &&& old(self).tree().pair(class as int, pair).usage(side) == Use::Free
                &&& old(self).tree().pair(class as int, pair).chunk == entry.chunk
                &&& entry.offset == half_offset(
                    old(self).tree().pair(class as int, pair).offset,
                    side,
                    class_size,
                )
                &&& final(self).tree() == old(self).tree().with_usage(
                    class as int,
                    pair,
                    side,
                    Use::Held,
                )
            },
    {
        proof {
            self.tree().lemma_sizes_fit();
            self.tree().lemma_offsets_fit(class as int);
            self.tree().lemma_class_sizes(class as int);
            assert forall|i: int| 0 <= i < self.sizes@[class as int].cores().len()
                implies match #[trigger] self.sizes@[class as int].cores()[i] {
                Some(pair) => pair.offset + class_size <= u64::MAX,
                None => true,
            } by {
                assert(self.tree().classes[class as int][i] is Some <==> self.sizes@[class as int].cores()[i] is Some);
            }
        }
        let size = &mut self.sizes[class];
        let r = size.acquire(class_size);
        proof {
            match r {
                Some(entry) => {
                    let pair = spec_node_pair(entry.index) as int;
                    let side = spec_node_side(entry.index);
                    let expected = old(self).tree().with_usage(class as int, pair, side, Use::Held);
                    assert(!old(self).splits@.dom().contains((class as int, entry.index as int)));
                    assert(self.tree().chunks =~= expected.chunks);
                    assert forall|c: int| 0 <= c < self.sizes@.len() implies self.tree().classes[c]
                        =~= expected.classes[c] by {
                        if c != class {
                            assert(self.sizes@[c] == old(self).sizes@[c]);
                        }
                    }
                    assert(self.tree().classes =~= expected.classes);
                    old(self).tree().lemma_with_usage(class as int, pair, side, Use::Held);
                    old(self).tree().lemma_within_with_usage(class as int, pair, side, Use::Held);
                    old(self).tree().lemma_disjoint_with_usage(class as int, pair, side, Use::Held);
                    old(self).tree().lemma_aligned_with_usage(class as int, pair, side, Use::Held);
                },
                None => {
                    assert(self.sizes@ =~= old(self).sizes@);
                    old(self).tree().lemma_within_self();
                },
            }
        }
        r
    }
}

/// What becomes of a fresh chunk of `chunk_size` bytes in host-visible memory, given
/// what the device returned for mapping it: the address that it is mapped at, or the
/// error that the request fails with, after the chunk went back to the device.
///
/// A chunk that the device failed to map, or that it mapped at an address from which
/// `chunk_size` bytes do not fit into the address space, fails with `OutOfHostMemory`.
pub open spec fn spec_chunk_address(mapped: Result<usize, DeviceMapError>, chunk_size: u64) -> Result<
    usize,
    AllocationError,
> {
    match mapped {
        Ok(address) => if address + chunk_size <= usize::MAX {
            Ok(address)
        } else {
            Err(AllocationError::OutOfHostMemory)
        },
        Err(DeviceMapError::OutOfDeviceMemory) => Err(AllocationError::OutOfDeviceMemory),
        Err(DeviceMapError::MapFailed) => Err(AllocationError::OutOfHostMemory),
        Err(DeviceMapError::OutOfHostMemory) => Err(AllocationError::OutOfHostMemory),
    }
}

/// What becomes of a fresh chunk in host-visible memory.
#[verifier::when_used_as_spec(spec_chunk_address)]
pub fn chunk_address(mapped: Result<usize, DeviceMapError>, chunk_size: u64) -> (r: Result<
    usize,
    AllocationError,
>)
    ensures
        r == spec_chunk_address(mapped, chunk_size),
{
    match mapped {
        Ok(address) => if chunk_size <= usize::MAX as u64 && address <= usize::MAX
            - chunk_size as usize {
            Ok(address)
        } else {
            Err(AllocationError::OutOfHostMemory)
        },
        Err(DeviceMapError::OutOfDeviceMemory) => Err(AllocationError::OutOfDeviceMemory),
        Err(DeviceMapError::MapFailed) => Err(AllocationError::OutOfHostMemory),
        Err(DeviceMapError::OutOfHostMemory) => Err(AllocationError::OutOfHostMemory),
    }
}

/// Where a fresh chunk of `chunk_size` bytes is mapped, given what the device returned
/// for mapping it, or the error that the request fails with. A chunk in memory that
/// is not host-visible is not mapped, and `mapped` is `None` for it.
pub open spec fn spec_settled_address(
    mapped: Option<Result<usize, DeviceMapError>>,
    chunk_size: u64,
) -> Result<Option<usize>, AllocationError> {
    match mapped {
        Some(answer) => match spec_chunk_address(answer, chunk_size) {
            Ok(address) => Ok(Some(address)),
            Err(err) => Err(err),
        },
        None => Ok(None),
    }
}

proof fn lemma_put_chunk(chunks: Seq<Option<ChunkInfo>>, index: int, info: ChunkInfo)
    requires
        0 <= index <= chunks.len(),
        index < chunks.len() ==> chunks[index] is None,
    ensures
        count_some(put(chunks, index, info)) == count_some(chunks) + 1,
        total_size(put(chunks, index, info)) == total_size(chunks) + info.size,
{
    if index < chunks.len() {
        lemma_count_update(chunks, index, Some(info));
        lemma_total_update(chunks, index, Some(info));
    } else {
        lemma_count_push(chunks, Some(info));
        lemma_total_push(chunks, Some(info));
    }
}

/// A chunk that is put into a slot is in that slot.
proof fn lemma_put_chunk_at(chunks: Seq<Option<ChunkInfo>>, index: int, info: ChunkInfo)
    requires
        0 <= index <= chunks.len(),
    ensures
        put(chunks, index, info)[index] == Some(info),
        index < put(chunks, index, info).len(),
{
}

proof fn lemma_drop_chunk(chunks: Seq<Option<ChunkInfo>>, index: int)
    requires
        0 <= index < chunks.len(),
        chunks[index] is Some,
    ensures
        count_some(chunks.update(index, None)) + 1 == count_some(chunks),
        total_size(chunks.update(index, None)) + chunks[index]->0.size == total_size(chunks),
{
    lemma_count_update(chunks, index, None);
    lemma_total_update(chunks, index, None);
}

proof fn lemma_pow2_monotonic(unit: u64, a: nat, b: nat)
    requires
        a <= b,
    ensures
        unit * pow2(a) <= unit * pow2(b),
{
    if a < b {
        lemma_pow2_strictly_increases(a, b);
    }
    assert(unit * pow2(a) <= unit * pow2(b)) by (nonlinear_arith)
        requires
            pow2(a) <= pow2(b),
    ;
}

impl Size {
    /// A pair is known to have a free half exactly if some pair has one: no free half
    /// is lost.
    proof fn lemma_ready_iff_free(&self)
        requires
            self.wf(),
        ensures
            self.has_ready() <==> exists|pair: int|
                0 <= pair < self.cores().len() && (#[trigger] self.cores()[pair]) is Some && (
                self.cores()[pair]->0.left is Free || self.cores()[pair]->0.right is Free),
    {
        reveal(ordered);
        reveal(entries_wf);
        if self.has_ready() {
            assert(self.order@.len() > 0);
            assert(in_ring(self.pairs@, at(self.order@, 0)));
            let pair = self.ready as int;
            assert(in_ring(self.pairs@, pair));
            assert(self.pairs@[pair]->0.wf());
            let core = self.pairs@[pair]->0.pair_core();
            assert(self.cores()[pair] == Some(core));
            assert(core.left is Free || core.right is Free);
        }
        if exists|pair: int|
            0 <= pair < self.cores().len() && (#[trigger] self.cores()[pair]) is Some && (
            self.cores()[pair]->0.left is Free || self.cores()[pair]->0.right is Free) {
            let pair = choose|pair: int|
                0 <= pair < self.cores().len() && (#[trigger] self.cores()[pair]) is Some && (
                self.cores()[pair]->0.left is Free || self.cores()[pair]->0.right is Free);
            assert(self.pairs@[pair] is Some);
            assert(self.pairs@[pair]->0.wf());
            assert(self.cores()[pair] == Some(self.pairs@[pair]->0.pair_core()));
            assert(in_ring(self.pairs@, pair));
            assert(member(self.pairs@, pair));
            assert(self.order@.contains(pair));
            assert(in_ring(self.pairs@, at(self.order@, 0)));
        }
    }

    /// No half of a pair is marked as split in the class itself.
    proof fn lemma_plain(&self, pair: int)
        requires
            self.wf(),
            0 <= pair < self.cores().len(),
            self.cores()[pair] is Some,
        ensures
            !(self.cores()[pair]->0.left is Split),
            !(self.cores()[pair]->0.right is Split),
    {
        lemma_entry_wf(self.pairs@, pair);
    }

    fn room(&self) -> (r: bool)
        ensures
            r == self.has_room(),
    {
        self.pairs.len() < usize::MAX / 2
    }
}

impl<M> BuddyAllocator<M> {
    /// Adds classes until the class `class` exists.
    fn extend_to(&mut self, class: usize)
        requires
            old(self).wf(),
            old(self).tree().unit * pow2((class + 1) as nat) <= u64::MAX,
        ensures
            final(self).wf(),
            final(self).same_parameters(old(self)),
            final(self).sizes@.len() > class,
            final(self).sizes@.len() >= old(self).sizes@.len(),
            final(self).tree().chunks == old(self).tree().chunks,
            final(self).live() == old(self).live(),
            class < old(self).sizes@.len() ==> final(self).sizes@ == old(self).sizes@,
            class < old(self).sizes@.len() ==> *final(self) == *old(self),
            final(self).chunks == old(self).chunks,
            class >= old(self).sizes@.len() ==> final(self).sizes@.len() == class + 1,
            forall|c: int|
                0 <= c < old(self).sizes@.len() ==> #[trigger] final(self).sizes@[c] == old(
                    self,
                ).sizes@[c],
            forall|c: int|
                old(self).sizes@.len() <= c < final(self).sizes@.len() ==> !(
                #[trigger] final(self).sizes@[c]).has_ready() && final(self).sizes@[c].has_room(),
            old(self).tree().within(final(self).tree()),
    {
        proof {
            self.tree().lemma_within_self();
        }
        while self.sizes.len() <= class
            invariant
                self.wf(),
                class < old(self).sizes@.len() ==> *self == *old(self),
                self.chunks == old(self).chunks,
                class >= old(self).sizes@.len() ==> self.sizes@.len() <= class + 1,
                forall|c: int|
                    0 <= c < old(self).sizes@.len() ==> #[trigger] self.sizes@[c] == old(
                        self,
                    ).sizes@[c],
                forall|c: int|
                    old(self).sizes@.len() <= c < self.sizes@.len() ==> !(
                    #[trigger] self.sizes@[c]).has_ready() && self.sizes@[c].has_room(),
                self.same_parameters(old(self)),
                self.sizes@.len() >= old(self).sizes@.len(),
                self.tree().chunks == old(self).tree().chunks,
                self.live() == old(self).live(),
                self.tree().unit * pow2((class + 1) as nat) <= u64::MAX,
                class < old(self).sizes@.len() ==> self.sizes@ == old(self).sizes@,
                old(self).tree().within(self.tree()),
            decreases class + 1 - self.sizes@.len(),
        {
            let ghost before = *self;
            self.sizes.push(Size::new());
            proof {
                lemma_pow2_monotonic(
                    before.tree().unit,
                    (before.sizes@.len() + 1) as nat,
                    (class + 1) as nat,
                );
                before.tree().lemma_extended();
                before.tree().lemma_within_extended();
                before.tree().lemma_disjoint_extended();
                before.tree().lemma_aligned_extended();
                assert(self.tree().chunks =~= before.tree().chunks);
                assert forall|c: int| 0 <= c < self.sizes@.len() implies self.tree().classes[c]
                    =~= before.tree().extended().classes[c] by {
                    if c < before.sizes@.len() {
                        assert(self.sizes@[c] == before.sizes@[c]);
                    }
                }
                assert(self.tree().classes =~= before.tree().extended().classes);
                old(self).tree().lemma_within_transitive(before.tree(), self.tree());
                assert(self.live() =~= before.live());
            }
        }
    }

    /// Allocates a new chunk, whose halves are of the class `class`, and takes its left
    /// half.
    fn grow<D: MemoryDevice<M>>(
        &mut self,
        device: &D,
        class: usize,
        class_size: u64,
        flags: AllocationFlags,
        heap: &mut Heap,
        allocations_remains: &mut u32,
    ) -> (r: Result<SizeBlockEntry, AllocationError>)
        requires
            old(self).wf(),
            class < old(self).sizes@.len(),
            class_size == old(self).tree().class_size(class as int),
            !old(self).sizes@[class as int].has_ready(),
            old(heap).wf(),
        ensures
            final(self).wf(),
            final(self).same_parameters(old(self)),
            final(self).keeps_chunks_of(old(self)),
            final(heap).wf(),
            final(heap).spec_size() == old(heap).spec_size(),
            final(self).sizes@.len() == old(self).sizes@.len(),
            forall|other: int|
                0 <= other < old(self).sizes@.len()
                    && other != class ==> final(self).sizes@[other] == old(self).sizes@[other],
            final(heap).spec_used() + old(self).bytes_held()
                == old(heap).spec_used() + final(self).bytes_held(),
            *final(allocations_remains) + final(self).objects_held() == *old(allocations_remains)
                + old(self).objects_held(),
            match r {
                Ok(entry) => {
                    let pair = spec_node_pair(entry.index) as int;
                    &&& entry.index % 2 == 0
                    &&& entry.offset == 0
                    &&& final(self).sizes@[class as int].ready == pair
                    &&& final(self).sizes@[class as int].has_ready()
                    &&& 0 <= pair <= old(self).tree().classes[class as int].len()
                    &&& pair < old(self).tree().classes[class as int].len() ==> old(
                        self,
                    ).tree().classes[class as int][pair] is None
                    &&& 0 <= entry.chunk <= old(self).tree().chunks.len()
                    &&& entry.chunk < old(self).tree().chunks.len() ==> old(
                        self,
                    ).tree().chunks[entry.chunk as int] is None
                    &&& final(self).tree() == old(self).tree().with_root(
                        class as int,
                        pair,
                        entry.chunk as int,
                    )
                    &&& old(self).tree().within(final(self).tree())
                },
                Err(err) => {
                    &&& final(self).tree() == old(self).tree()
                    &&& final(self).sizes@ == old(self).sizes@
                    &&& err != AllocationError::NoCompatibleMemoryTypes
                    &&& err == AllocationError::TooManyObjects ==> *final(allocations_remains) == 0
                    &&& final(heap).spec_used() == old(heap).spec_used()
                    &&& *final(allocations_remains) == *old(allocations_remains)
                },
            },
            r is Ok ==> final(heap).spec_used() == old(heap).spec_used() + 2 * class_size
                && *final(allocations_remains) == *old(allocations_remains) - 1 && final(self).objects_held() == old(self).objects_held() + 1,
            !old(self).sizes@[class as int].has_room() ==> r is Err && r->Err_0
                == AllocationError::OutOfHostMemory,
            old(self).sizes@[class as int].has_room() && *old(allocations_remains) == 0 ==> r
                is Err && r->Err_0 == AllocationError::TooManyObjects,
            old(self).sizes@[class as int].has_room() && *old(allocations_remains) > 0 && 2
                * class_size > old(heap).spec_budget() ==> r is Err && r->Err_0
                == AllocationError::OutOfDeviceMemory,
    {
        proof {
            self.tree().lemma_sizes_fit();
            self.tree().lemma_class_sizes(class as int);
        }
        if !self.sizes[class].room() {
            return Err(AllocationError::OutOfHostMemory);
        }
        let chunk_size = class_size * 2;
        if *allocations_remains == 0 {
            return Err(AllocationError::TooManyObjects);
        }
        if chunk_size > heap.budget() {
            return Err(AllocationError::OutOfDeviceMemory);
        }
        let memory = match device.allocate_memory(chunk_size, self.memory_type, flags) {
            Ok(memory) => memory,
            Err(err) => {
                return Err(AllocationError::from(err));
            },
        };
        let mapped = if self.host_visible() {
            Some(device.map_memory(&memory, 0, chunk_size))
        } else {
            None
        };
        self.settle_chunk(device, memory, mapped, class, class_size, heap, allocations_remains)
    }

    /// Whether the pairs of every class but `class` are in `self` what they are in
    /// `before`.
    pub closed spec fn keeps_classes_but(&self, before: &Self, class: int) -> bool {
        &&& self.sizes@.len() == before.sizes@.len()
        &&& forall|other: int|
            0 <= other < before.sizes@.len() && other != class ==> self.sizes@[other]
                == before.sizes@[other]
    }

    /// What becomes of a fresh memory object of twice `class_size` bytes, which is to
    /// be a new chunk with halves of the class `class`, given what the device returned
    /// for mapping it. `mapped` is `None` for memory that is not host-visible, which
    /// is not mapped; for other memory `chunk_address` decides.
    ///
    /// * A chunk that is used is charged to the heap and to the number of memory
    ///   objects that the device can give, and its left half is taken: the node that
    ///   is returned. The right half is free and is taken next.
    /// * A chunk that is not used goes back to the device, and the allocator, what the
    ///   heap is charged with and the number of memory objects are what they were.
    pub fn settle_chunk<D: MemoryDevice<M>>(
        &mut self,
        device: &D,
        memory: M,
        mapped: Option<Result<usize, DeviceMapError>>,
        class: usize,
        class_size: u64,
        heap: &mut Heap,
        allocations_remains: &mut u32,
    ) -> (r: Result<SizeBlockEntry, AllocationError>)
        requires
            old(self).wf(),
            class < old(self).tree().classes.len(),
            class_size == old(self).tree().class_size(class as int),
            !old(self).class_ready(class as int),
            old(self).class_room(class as int),
            (mapped is Some) == old(self).spec_props().spec_is_host_visible(),
            old(heap).wf(),
            *old(allocations_remains) > 0,
            2 * class_size <= old(heap).spec_budget(),
        ensures
            final(self).wf(),
            final(self).same_parameters(old(self)),
            final(heap).wf(),
            final(heap).spec_size() == old(heap).spec_size(),
            final(self).keeps_classes_but(old(self), class as int),
            match spec_settled_address(mapped, (2 * class_size) as u64) {
                Ok(base) => {
                    let entry = r->Ok_0;
                    let pair = spec_node_pair(entry.index) as int;
                    &&& r is Ok
                    &&& entry.index % 2 == 0
                    &&& entry.offset == 0
                    &&& final(self).chunk_base(entry.chunk as int) == base
                    &&& final(self).chunk_memory(entry.chunk as int) == Some(memory)
                    &&& final(self).keeps_chunks_of(old(self))
                    &&& final(self).ready_pair(class as int) == pair
                    &&& final(self).class_ready(class as int)
                    &&& 0 <= pair <= old(self).tree().classes[class as int].len()
                    &&& pair < old(self).tree().classes[class as int].len() ==> old(
                        self,
                    ).tree().classes[class as int][pair] is None
                    &&& 0 <= entry.chunk <= old(self).tree().chunks.len()
                    &&& entry.chunk < old(self).tree().chunks.len() ==> old(
                        self,
                    ).tree().chunks[entry.chunk as int] is None
                    &&& final(self).tree() == old(self).tree().with_root(
                        class as int,
                        pair,
                        entry.chunk as int,
                    )
                    &&& old(self).tree().within(final(self).tree())
                    &&& final(heap).spec_used() == old(heap).spec_used() + 2 * class_size
                    &&& *final(allocations_remains) == *old(allocations_remains) - 1
                    &&& final(self).objects_held() == old(self).objects_held() + 1
                    &&& final(self).bytes_held() == old(self).bytes_held() + 2 * class_size
                },
                Err(err) => {
                    &&& r is Err
                    &&& r->Err_0 == err
                    &&& *final(self) == *old(self)
                    &&& final(heap).spec_used() == old(heap).spec_used()
                    &&& *final(allocations_remains) == *old(allocations_remains)
                },
            },
    {
        proof {
            self.tree().lemma_sizes_fit();
            self.tree().lemma_class_sizes(class as int);
        }
        let chunk_size = class_size * 2;
        *allocations_remains -= 1;
        heap.allocate(chunk_size);
        let ptr = match mapped {
            Some(answer) => match chunk_address(answer, chunk_size) {
                Ok(address) => Some(address),
                Err(err) => {
                    if answer.is_ok() {
                        device.unmap_memory(&memory);
                    }
                    device.deallocate_memory(memory);
                    *allocations_remains += 1;
                    heap.dealloc(chunk_size);
                    return Err(err);
                },
            },
            None => None,
        };
        proof {
            self.chunks.lemma_next_index();
            self.sizes@[class as int].pairs.lemma_next_index();
        }
        let ghost pair = self.sizes@[class as int].pairs.spec_next_index() as int;
        let chunk = self.chunks.insert(
            Chunk { memory, ptr, size: chunk_size, root: Ghost((class as int, pair)) },
        );
        let size = &mut self.sizes[class];
        let entry = size.add_pair_and_acquire_left(chunk, 0, None);
        proof {
            let expected = old(self).tree().with_root(class as int, pair, chunk as int);
            lemma_put_chunk(
                old(self).tree().chunks,
                chunk as int,
                ChunkInfo { size: chunk_size, root_class: class as int, root_pair: pair },
            );
            assert(self.tree().chunks =~= expected.chunks);
            assert(!old(self).splits@.dom().contains((class as int, 2 * pair)));
            assert(!old(self).splits@.dom().contains((class as int, 2 * pair + 1)));
            assert forall|c: int| 0 <= c < self.sizes@.len() implies self.tree().classes[c]
                =~= expected.classes[c] by {
                if c != class {
                    assert(self.sizes@[c] == old(self).sizes@[c]);
                } else {
                    assert(self.sizes@[c].cores() == put(
                        old(self).sizes@[c].cores(),
                        pair,
                        PairCore {
                            chunk,
                            offset: 0,
                            parent: None,
                            left: Use::Held,
                            right: Use::Free,
                        },
                    ));
                    assert(self.tree().classes[c].len() == expected.classes[c].len());
                    assert forall|p: int| 0 <= p < self.tree().classes[c].len()
                        implies self.tree().classes[c][p]
                        == expected.classes[c][p] by {
                        if p != pair {
                            assert(self.sizes@[c].cores()[p] == old(self).sizes@[c].cores()[p]);
                        }
                    }
                }
            }
            assert(self.tree().classes =~= expected.classes);
            old(self).tree().lemma_with_root(class as int, pair, chunk as int);
            old(self).tree().lemma_within_with_root(class as int, pair, chunk as int);
            old(self).tree().lemma_disjoint_with_root(class as int, pair, chunk as int);
            old(self).tree().lemma_aligned_with_root(class as int, pair, chunk as int);
        }
        Ok(entry)
    }
}

impl<M> BuddyAllocator<M> {
    /// Splits the node `parent` of the class above `class`, which was handed out, into
    /// a new pair of the class `class`, and takes the left half of the pair in its
    /// place.
    fn split_into(&mut self, class: usize, parent: SizeBlockEntry) -> (r: SizeBlockEntry)
        requires
            old(self).wf(),
            class + 1 < old(self).sizes@.len(),
            old(self).tree().held(class + 1, parent.index),
            parent.chunk == old(self).tree().pair(
                class + 1,
                spec_node_pair(parent.index) as int,
            ).chunk,
            parent.offset == half_offset(
                old(self).tree().pair(class + 1, spec_node_pair(parent.index) as int).offset,
                spec_node_side(parent.index),
                #[verifier::truncate]
                (old(self).tree().class_size(class + 1) as u64),
            ),
            !old(self).sizes@[class as int].has_ready(),
            old(self).sizes@[class as int].has_room(),
        ensures
            final(self).wf(),
            final(self).same_parameters(old(self)),
            final(self).chunks == old(self).chunks,
            final(self).sizes@.len() == old(self).sizes@.len(),
            forall|other: int|
                0 <= other < old(self).sizes@.len()
                    && other != class ==> final(self).sizes@[other] == old(self).sizes@[other],
            r.index % 2 == 0,
            r.chunk == parent.chunk,
            r.offset == parent.offset,
            final(self).sizes@[class as int].ready == spec_node_pair(r.index),
            final(self).sizes@[class as int].has_ready(),
            old(self).tree().within(final(self).tree()),
            ({
                let child = spec_node_pair(r.index) as int;
                &&& 0 <= child <= old(self).tree().classes[class as int].len()
                &&& child < old(self).tree().classes[class as int].len() ==> old(
                    self,
                ).tree().classes[class as int][child] is None
                &&& final(self).tree() == old(self).tree().with_split(
                    class + 1,
                    spec_node_pair(parent.index) as int,
                    spec_node_side(parent.index),
                    child,
                )
            }),
    {
        let size = &mut self.sizes[class];
        let entry = size.add_pair_and_acquire_left(parent.chunk, parent.offset, Some(parent.index));
        proof {
            let child = spec_node_pair(entry.index) as int;
            let pair = spec_node_pair(parent.index) as int;
            let side = spec_node_side(parent.index);
            let up = class + 1;
            self.splits@ = self.splits@.insert((up, parent.index as int), child as usize);
            let expected = old(self).tree().with_split(up, pair, side, child);
            assert(!old(self).splits@.dom().contains((class as int, 2 * child)));
            assert(!old(self).splits@.dom().contains((class as int, 2 * child + 1)));
            assert(!old(self).splits@.dom().contains((up, parent.index as int)));
            assert(self.tree().chunks =~= expected.chunks);
            assert forall|c: int| 0 <= c < self.sizes@.len() implies self.tree().classes[c]
                =~= expected.classes[c] by {
                if c != class {
                    assert(self.sizes@[c] == old(self).sizes@[c]);
                }
                assert(self.tree().classes[c].len() == expected.classes[c].len());
                assert forall|p: int| 0 <= p < self.tree().classes[c].len()
                    implies self.tree().classes[c][p]
                    == expected.classes[c][p] by {
                    if c == class && p != child {
                        assert(self.sizes@[c].cores()[p] == old(self).sizes@[c].cores()[p]);
                    }
                }
            }
            assert(self.tree().classes =~= expected.classes);
            old(self).tree().lemma_with_split(up, pair, side, child);
            old(self).tree().lemma_within_with_split(up, pair, side, child);
            old(self).tree().lemma_disjoint_with_split(up, pair, side, child);
            old(self).tree().lemma_aligned_with_split(up, pair, side, child);
            assert(self.parts_wf()) by {
                assert forall|c: int, node: int| #[trigger]
                    self.splits@.dom().contains((c, node)) implies {
                    &&& 0 <= c < self.sizes@.len()
                    &&& 0 <= node
                    &&& node / 2 < self.sizes@[c].cores().len()
                    &&& self.sizes@[c].cores()[node / 2] matches Some(pair) && pair.usage(
                        spec_node_side(node as usize),
                    ) == Use::Held
                    &&& node <= usize::MAX
                } by {
                    if c == up && node == parent.index {
                        old(self).sizes@[c].lemma_plain(node / 2);
                    } else {
                        assert(old(self).splits@.dom().contains((c, node)));
                        if c == class {
                            assert(node / 2 != child);
                            assert(self.sizes@[c].cores()[node / 2] == old(
                                self,
                            ).sizes@[c].cores()[node / 2]);
                        } else {
                            assert(self.sizes@[c] == old(self).sizes@[c]);
                        }
                    }
                }
            }
        }
        entry
    }
}

impl<M> BuddyAllocator<M> {
    /// Gives back the node with index `index` of the class `class`, which was handed
    /// out. Where the node is joined with its buddy, the node that the two were split
    /// from is returned, handed out in their place; where the two are a whole chunk,
    /// the chunk goes back to the device.
    fn release_at<D: MemoryDevice<M>>(
        &mut self,
        device: &D,
        class: usize,
        index: usize,
        heap: &mut Heap,
        allocations_remains: &mut u32,
    ) -> (r: Option<usize>)
        requires
            old(self).wf(),
            class < old(self).sizes@.len(),
            old(self).tree().held(class as int, index),
            old(heap).wf(),
            old(self).bytes_held() <= old(heap).spec_used(),
            old(self).objects_held() + *old(allocations_remains) <= u32::MAX,
        ensures
            final(self).wf(),
            final(self).same_parameters(old(self)),
            final(self).sizes@.len() == old(self).sizes@.len(),
            final(heap).wf(),
            final(heap).spec_size() == old(heap).spec_size(),
            final(heap).spec_used() + old(self).bytes_held()
                == old(heap).spec_used() + final(self).bytes_held(),
            *final(allocations_remains) + final(self).objects_held() == *old(allocations_remains)
                + old(self).objects_held(),
            final(self).objects_held() <= old(self).objects_held(),
            final(heap).spec_used() <= old(heap).spec_used(),
            final(self).tree().within(old(self).tree()),
            final(self).keeps_chunks_of(old(self)),
            r is Some ==> final(self).chunks == old(self).chunks && final(heap).spec_used() == old(
                heap,
            ).spec_used() && *final(allocations_remains) == *old(allocations_remains),
            ({
                let c = old(self).tree().pair(class as int, spec_node_pair(index) as int).chunk as int;
                let freed = !final(self).tree().chunk_occ(c);
                &&& old(self).tree().chunk_occ(c)
                &&& r matches Some(parent) ==> final(self).tree().pair(
                    class + 1,
                    spec_node_pair(parent) as int,
                ).chunk == c
                &&& r is None ==> final(self).objects_held() + (if freed {
                    1nat
                } else {
                    0nat
                }) == old(self).objects_held() && final(heap).spec_used() + (if freed {
                    old(self).chunk_size(c) as int
                } else {
                    0int
                }) == old(heap).spec_used() && *final(allocations_remains) == *old(
                    allocations_remains,
                ) + (if freed {
                    1int
                } else {
                    0int
                })
            }),
            match r {
                Some(parent) => {
                    &&& class + 1 < old(self).sizes@.len()
                    &&& final(self).tree().held(class + 1, parent)
                    &&& !old(self).live().contains(BuddyKey { class: class + 1, index: parent })
                    &&& final(self).live() == old(self).live().remove(
                        BuddyKey { class: class as int, index },
                    ).insert(BuddyKey { class: class + 1, index: parent })
                    &&& final(self).objects_held() == old(self).objects_held()
                },
                None => final(self).live() == old(self).live().remove(
                    BuddyKey { class: class as int, index },
                ),
            },
    {
        let ghost pair = spec_node_pair(index) as int;
        let ghost side = spec_node_side(index);
        let ghost tree = self.tree();
        proof {
            self.sizes@[class as int].lemma_plain(pair);
            tree.lemma_place(class as int, pair);
            assert(!self.splits@.dom().contains((class as int, index as int)));
            assert(Tree::key(class as int, pair, side) == BuddyKey { class: class as int, index });
        }
        let size = &mut self.sizes[class];
        let released = size.release(index);
        match released {
            Release::Done => {
                proof {
                    let expected = tree.with_usage(class as int, pair, side, Use::Free);
                    assert(self.tree().chunks =~= expected.chunks);
                    assert forall|c: int| 0 <= c < self.sizes@.len() implies self.tree().classes[c]
                        =~= expected.classes[c] by {
                        if c != class {
                            assert(self.sizes@[c] == old(self).sizes@[c]);
                        }
                    }
                    assert(self.tree().classes =~= expected.classes);
                    tree.lemma_with_usage(class as int, pair, side, Use::Free);
                    tree.lemma_within_with_usage(class as int, pair, side, Use::Free);
                    tree.lemma_disjoint_with_usage(class as int, pair, side, Use::Free);
                    tree.lemma_aligned_with_usage(class as int, pair, side, Use::Free);
                    tree.lemma_live_free(class as int, pair, side);
                    assert(self.parts_wf()) by {
                        assert forall|c: int, node: int| #[trigger]
                            self.splits@.dom().contains((c, node)) implies {
                            &&& 0 <= c < self.sizes@.len()
                            &&& 0 <= node
                            &&& node / 2 < self.sizes@[c].cores().len()
                            &&& self.sizes@[c].cores()[node / 2] matches Some(pair) && pair.usage(
                                spec_node_side(node as usize),
                            ) == Use::Held
                            &&& node <= usize::MAX
                        } by {
                            if c != class {
                                assert(self.sizes@[c] == old(self).sizes@[c]);
                            }
                        }
                    }
                }
                None
            },
            Release::Parent(parent) => {
                proof {
                    tree.lemma_parent(class as int, pair);
                    tree.lemma_with_joined(class as int, pair);
                    tree.lemma_within_with_joined(class as int, pair);
                    tree.lemma_disjoint_with_joined(class as int, pair);
                    tree.lemma_aligned_with_joined(class as int, pair);
                    tree.lemma_live_joined(class as int, pair, side);
                    let up = class + 1;
                    self.splits@ = self.splits@.remove((up, parent as int));
                    let expected = tree.with_joined(class as int, pair);
                    assert(self.tree().chunks =~= expected.chunks);
                    assert(old(self).splits@.dom().contains((up, parent as int)));
                    assert forall|c: int| 0 <= c < self.sizes@.len() implies self.tree().classes[c]
                        =~= expected.classes[c] by {
                        if c != class {
                            assert(self.sizes@[c] == old(self).sizes@[c]);
                        }
                        assert(self.tree().classes[c].len() == expected.classes[c].len());
                        assert forall|p: int| 0 <= p < self.tree().classes[c].len()
                            implies self.tree().classes[c][p]
                            == expected.classes[c][p] by {
                            if c == class && p != pair {
                                assert(self.sizes@[c].cores()[p] == old(self).sizes@[c].cores()[p]);
                            }
                        }
                    }
                    assert(self.tree().classes =~= expected.classes);
                    assert(self.parts_wf()) by {
                        assert forall|c: int, node: int| #[trigger]
                            self.splits@.dom().contains((c, node)) implies {
                            &&& 0 <= c < self.sizes@.len()
                            &&& 0 <= node
                            &&& node / 2 < self.sizes@[c].cores().len()
                            &&& self.sizes@[c].cores()[node / 2] matches Some(pair) && pair.usage(
                                spec_node_side(node as usize),
                            ) == Use::Held
                            &&& node <= usize::MAX
                        } by {
                            assert(old(self).splits@.dom().contains((c, node)));
                            if c != class {
                                assert(self.sizes@[c] == old(self).sizes@[c]);
                            } else {
                                if node / 2 == pair {
                                    if node == index {
                                    } else {
                                        assert(spec_node_side(node as usize) == side.other());
                                    }
                                }
                            }
                        }
                    }
                }
                Some(parent)
            },
            Release::Chunk(chunk) => {
                proof {
                    tree.lemma_without_root(class as int, pair);
                    tree.lemma_within_without_root(class as int, pair);
                    tree.lemma_disjoint_without_root(class as int, pair);
                    tree.lemma_aligned_without_root(class as int, pair);
                    tree.lemma_live_without_root(class as int, pair, side);
                    lemma_drop_chunk(tree.chunks, chunk as int);
                }
                let freed = self.chunks.remove(chunk);
                device.deallocate_memory(freed.memory);
                *allocations_remains += 1;
                heap.dealloc(freed.size);
                proof {
                    let expected = tree.without_root(class as int, pair);
                    assert(self.tree().chunks =~= expected.chunks);
                    assert forall|c: int| 0 <= c < self.sizes@.len() implies self.tree().classes[c]
                        =~= expected.classes[c] by {
                        if c != class {
                            assert(self.sizes@[c] == old(self).sizes@[c]);
                        }
                        assert(self.tree().classes[c].len() == expected.classes[c].len());
                        assert forall|p: int| 0 <= p < self.tree().classes[c].len()
                            implies self.tree().classes[c][p]
                            == expected.classes[c][p] by {
                            if c == class && p != pair {
                                assert(self.sizes@[c].cores()[p] == old(self).sizes@[c].cores()[p]);
                            }
                        }
                    }
                    assert(self.tree().classes =~= expected.classes);
                    assert(self.parts_wf()) by {
                        assert forall|c: int, node: int| #[trigger]
                            self.splits@.dom().contains((c, node)) implies {
                            &&& 0 <= c < self.sizes@.len()
                            &&& 0 <= node
                            &&& node / 2 < self.sizes@[c].cores().len()
                            &&& self.sizes@[c].cores()[node / 2] matches Some(pair) && pair.usage(
                                spec_node_side(node as usize),
                            ) == Use::Held
                            &&& node <= usize::MAX
                        } by {
                            assert(old(self).splits@.dom().contains((c, node)));
                            if c != class {
                                assert(self.sizes@[c] == old(self).sizes@[c]);
                            } else {
                                if node / 2 == pair {
                                    if node == index {
                                    } else {
                                        assert(spec_node_side(node as usize) == side.other());
                                    }
                                }
                            }
                        }
                    }
                }
                None
            },
        }
    }
}

impl<M> BuddyAllocator<M> {
    /// Whether a pair of the class `class` is known to have a free half.
    pub closed spec fn class_ready(&self, class: int) -> bool {
        0 <= class < self.sizes@.len() && self.sizes@[class].has_ready()
    }

    /// The pair of the class `class` whose free half is taken next, where a pair of the
    /// class is known to have one.
    pub closed spec fn ready_pair(&self, class: int) -> int {
        self.sizes@[class].ready as int
    }

    /// Whether the class `class` has room for one more pair.
    pub closed spec fn class_room(&self, class: int) -> bool {
        0 <= class < self.sizes@.len() && self.sizes@[class].has_room()
    }

    /// Whether a request for a block of the class `start` is served from a free half
    /// of the class `class`: no smaller class from `start` on has a free half, and
    /// each has room for the pair that the block of the next larger class is split
    /// into.
    pub open spec fn serves_from(&self, start: int, class: int) -> bool {
        &&& 0 <= start <= class
        &&& self.class_ready(class)
        &&& forall|c: int| start <= c < class ==> !#[trigger] self.class_ready(c)
            && self.class_room(c)
    }

    /// Whether a request for a block of the class `start` is served from a new chunk, if
    /// the device gives one: no class from `start` on has a free half, and each has
    /// room for one more pair.
    pub open spec fn grows_for(&self, start: int) -> bool {
        &&& 0 <= start
        &&& forall|c: int|
            start <= c < self.tree().classes.len() ==> !#[trigger] self.class_ready(c)
        &&& forall|c: int| start <= c < self.tree().classes.len() ==> #[trigger] self.class_room(c)
    }

    /// The number of classes after a request for a block of the class `start`: the
    /// classes are extended up to the class of the request.
    pub open spec fn classes_for(&self, start: int) -> int {
        if start < self.tree().classes.len() {
            self.tree().classes.len() as int
        } else {
            start + 1
        }
    }

    /// Whether the free half of the class `class` that is taken next lies at `offset`
    /// of the chunk `chunk`: a free half of the pair `ready_pair(class)`.
    pub open spec fn free_at(&self, class: int, chunk: usize, offset: int) -> bool {
        let pair = self.ready_pair(class);
        exists|side: Side|
            #![trigger self.tree().start(class, pair, side)]
            self.tree().occ(class, pair) && self.tree().pair(class, pair).usage(side)
                == Use::Free && self.tree().pair(class, pair).chunk == chunk
                && self.tree().start(class, pair, side) == offset
    }

    /// The pair whose free half is taken next has exactly one free half.
    pub proof fn lemma_ready_pair(&self, class: int)
        requires
            self.wf(),
            self.class_ready(class),
        ensures
            self.tree().occ(class, self.ready_pair(class)),
            (self.tree().pair(class, self.ready_pair(class)).left == Use::Free) != (
            self.tree().pair(class, self.ready_pair(class)).right == Use::Free),
    {
        let size = self.sizes@[class];
        let pair = size.ready as int;
        assert(in_ring(size.pairs@, pair));
        lemma_entry_wf(size.pairs@, pair);
        size.lemma_plain(pair);
    }

    /// What follows for the class that is counted up to from the class of a request
    /// whose chunks fit.
    proof fn lemma_request_class(&self, aligned: u64, class: int, start: int)
        requires
            self.wf(),
            0 <= class,
            forall|c: int| 0 <= c < class ==> self.tree().class_size(c) < aligned,
            0 <= start,
            self.tree().class_size(start) >= aligned,
            start >= 1 ==> self.tree().class_size(start - 1) < aligned,
            2 * self.tree().class_size(start) <= u64::MAX,
        ensures
            class <= start,
            class < 64,
            self.tree().class_size(class) <= self.tree().class_size(start),
            self.tree().class_size(class) >= aligned ==> class == start,
    {
        let tree = self.tree();
        tree.lemma_sizes_fit();
        if class < start {
            tree.lemma_class_unique(class, start);
            if class < start - 1 {
                tree.lemma_class_unique(class, start - 1);
            }
        }
        if start >= 63 {
            lemma2_to64();
            vstd::arithmetic::power2::lemma2_to64_rest();
            lemma_pow2_monotonic(tree.unit, 63, start as nat);
            assert(tree.unit * pow2(63) >= pow2(63)) by (nonlinear_arith)
                requires
                    tree.unit >= 1,
            ;
        }
    }

    /// Whether the class `class` is the class of the blocks that serve a request for
    /// `size` bytes aligned to `align_mask`: the smallest class whose halves hold
    /// `size` bytes rounded up to `align_mask` and the allocator's own mask.
    pub open spec fn is_request_class(&self, size: u64, align_mask: u64, class: int) -> bool {
        let aligned = spec_align_up(spec_effective_size(size), align_mask | self.spec_atom_mask());
        &&& aligned is Some
        &&& 0 <= class
        &&& self.tree().class_size(class) >= aligned->0
        &&& class >= 1 ==> self.tree().class_size(class - 1) < aligned->0
    }

    /// A pair of a class is known to have a free half exactly if some pair of the class
    /// has one: no free half is lost.
    pub proof fn lemma_class_ready(&self, class: int)
        requires
            self.wf(),
            0 <= class < self.tree().classes.len(),
        ensures
            self.class_ready(class) <==> self.tree().has_free(class),
    {
        let size = self.sizes@[class];
        let tree = self.tree();
        size.lemma_ready_iff_free();
        if self.class_ready(class) {
            let pair = choose|pair: int|
                0 <= pair < size.cores().len() && (#[trigger] size.cores()[pair]) is Some && (
                size.cores()[pair]->0.left is Free || size.cores()[pair]->0.right is Free);
            assert(tree.occ(class, pair));
        }
        if tree.has_free(class) {
            let pair = choose|pair: int| #[trigger]
                tree.occ(class, pair) && (tree.pair(class, pair).left is Free || tree.pair(
                    class,
                    pair,
                ).right is Free);
            assert(size.cores()[pair] is Some);
        }
    }

    /// Whether a request for `size` bytes aligned to `align_mask` is served without a
    /// new chunk: from a free half of the class of the request or of a larger class.
    pub open spec fn serves_without_device(&self, size: u64, align_mask: u64) -> bool {
        exists|start: int, class: int|
            self.is_request_class(size, align_mask, start) && #[trigger] self.serves_from(
                start,
                class,
            )
    }

    /// A request that is served from a new chunk is so after the classes were extended
    /// to its class.
    proof fn lemma_grows_still(&self, after: &Self, start: int)
        requires
            0 <= start,
            after.sizes@.len() == self.classes_for(start),
            forall|c: int| 0 <= c < self.sizes@.len() ==> #[trigger] after.sizes@[c] == self.sizes@[c],
            forall|c: int|
                self.sizes@.len() <= c < after.sizes@.len() ==> !(
                #[trigger] after.sizes@[c]).has_ready() && after.sizes@[c].has_room(),
        ensures
            self.grows_for(start) <==> after.grows_for(start),
    {
        if self.grows_for(start) {
            assert forall|c: int| start <= c < after.tree().classes.len() implies !#[trigger] after.class_ready(
                c,
            ) by {
                if c < self.sizes@.len() {
                    assert(!self.class_ready(c));
                }
            }
            assert forall|c: int| start <= c < after.tree().classes.len() implies #[trigger] after.class_room(
                c,
            ) by {
                if c < self.sizes@.len() {
                    assert(self.class_room(c));
                }
            }
        }
        if after.grows_for(start) {
            assert forall|c: int| start <= c < self.tree().classes.len() implies !#[trigger] self.class_ready(
                c,
            ) by {
                assert(!after.class_ready(c));
            }
            assert forall|c: int| start <= c < self.tree().classes.len() implies #[trigger] self.class_room(
                c,
            ) by {
                assert(after.class_room(c));
            }
        }
    }

    /// What is served from a free half is served from it as long as the classes are
    /// what they were.
    proof fn lemma_serves_still(&self, before: &Self, start: int, ready: int)
        requires
            before.serves_from(start, ready),
            self.sizes@ == before.sizes@,
        ensures
            self.serves_from(start, ready),
    {
        assert(before.class_ready(ready));
        assert forall|c: int| start <= c < ready implies !#[trigger] self.class_ready(c)
            && self.class_room(c) by {
            assert(!before.class_ready(c) && before.class_room(c));
        }
    }

    /// The blocks that were live in a tree that is within the tree of the allocator, or
    /// that the tree of the allocator is within, lie where they lay.
    pub proof fn lemma_keeps_blocks(&self, before: &Self, grown: bool)
        requires
            self.wf(),
            before.wf(),
            grown ==> before.tree().within(self.tree()),
            !grown ==> self.tree().within(before.tree()),
        ensures
            self.keeps_blocks_of(before),
    {
        assert forall|key: BuddyKey|
            #![trigger before.live().contains(key)]
            #![trigger self.live().contains(key)]
            before.live().contains(key) && self.live().contains(key) implies self.place(key)
            == before.place(key) && self.chunk_size(self.place(key).0 as int)
            == before.chunk_size(before.place(key).0 as int) by {
            if grown {
                before.tree().lemma_within_place(self.tree(), key);
            } else {
                self.tree().lemma_within_place(before.tree(), key);
            }
        }
    }

    /// The class whose halves have `size` bytes.
    pub closed spec fn class_of(&self, size: u64) -> int {
        class_for(self.minimal_size, size)
    }

    /// The key of a block.
    pub open spec fn key_of(&self, block: &BuddyBlock<M>) -> BuddyKey {
        BuddyKey { class: self.class_of(block.size), index: block.index }
    }

    /// Whether `block` is a live block of the allocator.
    pub open spec fn owns(&self, block: &BuddyBlock<M>) -> bool {
        &&& 0 <= self.class_of(block.size) < self.tree().classes.len()
        &&& self.tree().class_size(self.class_of(block.size)) == block.size
        &&& self.live().contains(self.key_of(block))
    }

    /// The chunk of a live block, where it starts in the chunk, and its size.
    pub open spec fn place(&self, key: BuddyKey) -> (usize, int, int) {
        let pair = spec_node_pair(key.index) as int;
        (
            self.tree().pair(key.class, pair).chunk,
            self.tree().start(key.class, pair, spec_node_side(key.index)),
            self.tree().class_size(key.class),
        )
    }

    /// The size of the chunk with index `chunk`.
    pub open spec fn chunk_size(&self, chunk: int) -> u64 {
        self.tree().chunks[chunk]->0.size
    }

    /// Whether the blocks that are live in `before` and in `self` lie where they lay,
    /// in chunks of the size that they had.
    pub open spec fn keeps_blocks_of(&self, before: &Self) -> bool {
        forall|key: BuddyKey|
            #![trigger before.live().contains(key)]
            #![trigger self.live().contains(key)]
            before.live().contains(key) && self.live().contains(key) ==> self.place(key)
                == before.place(key) && self.chunk_size(self.place(key).0 as int)
                == before.chunk_size(before.place(key).0 as int)
    }

    /// What the allocator holds is decided by its live blocks: two states of an
    /// allocator in which the same blocks are live, in the same chunks of the same
    /// sizes, hold the same number of memory objects with the same number of bytes. So
    /// what the heap is charged with is what it was, whenever the live blocks are
    /// what they were.
    pub proof fn lemma_same_blocks_same_bytes(&self, other: &Self)
        requires
            self.wf(),
            other.wf(),
            self.live() == other.live(),
            forall|key: BuddyKey| #[trigger]
                self.live().contains(key) ==> self.place(key).0 == other.place(key).0
                    && self.chunk_size(self.place(key).0 as int) == other.chunk_size(
                    other.place(key).0 as int,
                ),
        ensures
            self.objects_held() == other.objects_held(),
            self.bytes_held() == other.bytes_held(),
    {
        let a = self.tree();
        let b = other.tree();
        assert forall|chunk: int|
            (0 <= chunk < a.chunks.len() && a.chunks[chunk] is Some) <==> (0 <= chunk
                < b.chunks.len() && b.chunks[chunk] is Some) by {
            if a.chunk_occ(chunk) {
                let key = a.lemma_chunk_has_live(chunk);
                assert(other.live().contains(key));
                b.lemma_place(key.class, spec_node_pair(key.index) as int);
            }
            if b.chunk_occ(chunk) {
                let key = b.lemma_chunk_has_live(chunk);
                assert(self.live().contains(key));
                a.lemma_place(key.class, spec_node_pair(key.index) as int);
            }
        }
        assert forall|chunk: int|
            0 <= chunk < a.chunks.len() && a.chunks[chunk] is Some implies a.chunks[chunk]->0.size
            == b.chunks[chunk]->0.size by {
            assert(a.chunk_occ(chunk));
            let key = a.lemma_chunk_has_live(chunk);
            assert(self.live().contains(key));
        }
        lemma_same_chunks(a.chunks, b.chunks);
    }

    /// A chunk is held exactly as long as a block of it is live: a chunk goes back to
    /// the device with its last block, and not before.
    pub proof fn lemma_chunk_held(&self, chunk: int)
        requires
            self.wf(),
        ensures
            self.tree().chunk_occ(chunk) <==> exists|key: BuddyKey| #[trigger]
                self.live().contains(key) && self.place(key).0 == chunk,
    {
        let tree = self.tree();
        if tree.chunk_occ(chunk) {
            let key = tree.lemma_chunk_has_live(chunk);
            assert(self.live().contains(key) && self.place(key).0 == chunk);
        }
        if exists|key: BuddyKey| #[trigger] self.live().contains(key) && self.place(key).0 == chunk {
            let key = choose|key: BuddyKey| #[trigger]
                self.live().contains(key) && self.place(key).0 == chunk;
            tree.lemma_place(key.class, spec_node_pair(key.index) as int);
        }
    }

    /// No two live blocks in one chunk overlap; each lies within its chunk, and starts
    /// at a multiple of its size.
    pub proof fn lemma_live_blocks_disjoint(&self, a: BuddyKey, b: BuddyKey)
        requires
            self.wf(),
            self.live().contains(a),
            self.live().contains(b),
            a != b,
            self.place(a).0 == self.place(b).0,
        ensures
            self.place(a).1 + self.place(a).2 <= self.place(b).1 || self.place(b).1 + self.place(
                b,
            ).2 <= self.place(a).1,
            self.tree().chunk_occ(self.place(a).0 as int),
            0 <= self.place(a).1,
            self.place(a).1 + self.place(a).2 <= self.tree().chunks[self.place(a).0 as int]->0.size,
            1 <= self.place(a).2 <= u64::MAX,
            (self.place(a).1 as u64) & ((self.place(a).2 - 1) as u64) == 0,
    {
        let tree = self.tree();
        let pa = spec_node_pair(a.index) as int;
        let pb = spec_node_pair(b.index) as int;
        tree.lemma_apart(a.class, pa, spec_node_side(a.index), b.class, pb, spec_node_side(b.index));
        tree.lemma_place(a.class, pa);
        tree.lemma_aligned(a.class, pa, spec_node_side(a.index));
    }

    /// A block that was allocated is not empty and ends within the address space of the
    /// device.
    pub proof fn lemma_block_fits(&self, block: &BuddyBlock<M>)
        requires
            self.wf(),
            self.owns(block),
            self.tree().chunk_occ(block.chunk as int),
            block.offset + block.size <= self.tree().chunks[block.chunk as int]->0.size,
        ensures
            block.size >= 1,
            block.offset + block.size <= u64::MAX,
    {
        self.tree().lemma_sizes_fit();
        self.tree().lemma_class_sizes(self.class_of(block.size));
    }

    /// The smallest blocks of the allocator are the unit of its tree, and a power of
    /// two: the halves of the class `class` have `spec_minimal_size()` bytes times two
    /// to the power of `class`.
    pub proof fn lemma_unit(&self)
        requires
            self.wf(),
        ensures
            self.tree().unit == self.spec_minimal_size(),
            spec_is_power_of_two(self.spec_minimal_size()),
            forall|class: int|
                0 <= class ==> #[trigger] self.tree().class_size(class)
                    == self.spec_minimal_size() * pow2(class as nat),
    {
    }

    /// The largest chunks of an allocator that has more classes than it had are not
    /// smaller than they were.
    pub proof fn lemma_largest_class(&self, before: &Self)
        requires
            self.wf(),
            self.spec_minimal_size() == before.spec_minimal_size(),
            self.tree().classes.len() >= before.tree().classes.len(),
        ensures
            self.tree().class_size(self.tree().classes.len() as int) >= before.tree().class_size(
                before.tree().classes.len() as int,
            ),
    {
        self.tree().lemma_sizes_fit();
        if before.tree().classes.len() < self.tree().classes.len() {
            self.tree().lemma_class_unique(
                before.tree().classes.len() as int,
                self.tree().classes.len() as int,
            );
        }
    }

    /// The class of a size, and the size of a class, are what they were as long as the
    /// smallest blocks are what they were.
    pub proof fn lemma_class_kept(&self, before: &Self, size: u64)
        requires
            self.spec_minimal_size() == before.spec_minimal_size(),
        ensures
            self.class_of(size) == before.class_of(size),
            forall|class: int|
                #![trigger self.tree().class_size(class)]
                #![trigger before.tree().class_size(class)]
                self.tree().class_size(class) == before.tree().class_size(class),
    {
    }

    /// The class of a class size is the class.
    pub proof fn lemma_class_of(&self, class: int)
        requires
            self.wf(),
            0 <= class,
            self.tree().class_size(class) <= u64::MAX,
        ensures
            self.class_of(self.tree().class_size(class) as u64) == class,
    {
        self.tree().lemma_sizes_fit();
        let size = self.tree().class_size(class) as u64;
        let found = self.class_of(size);
        assert(size_of_class(self.minimal_size, class) == size);
        assert(0 <= found && size_of_class(self.minimal_size, found) == size);
        if found < class {
            self.tree().lemma_class_unique(found, class);
        } else if class < found {
            self.tree().lemma_class_unique(class, found);
        }
    }

    /// Finds a free half of the class `start` or of a larger class, and takes it; if
    /// there is none, allocates a new chunk whose halves are of the largest class,
    /// and takes its left half.
    fn find_block<D: MemoryDevice<M>>(
        &mut self,
        device: &D,
        start: usize,
        start_size: u64,
        flags: AllocationFlags,
        heap: &mut Heap,
        allocations_remains: &mut u32,
    ) -> (r: Result<(SizeBlockEntry, usize, u64), AllocationError>)
        requires
            old(self).wf(),
            start < old(self).sizes@.len(),
            start_size == old(self).tree().class_size(start as int),
            old(heap).wf(),
        ensures
            final(self).wf(),
            final(self).same_parameters(old(self)),
            final(self).keeps_chunks_of(old(self)),
            final(self).sizes@.len() == old(self).sizes@.len(),
            final(heap).wf(),
            final(heap).spec_size() == old(heap).spec_size(),
            final(heap).spec_used() + old(self).bytes_held()
                == old(heap).spec_used() + final(self).bytes_held(),
            *final(allocations_remains) + final(self).objects_held() == *old(allocations_remains)
                + old(self).objects_held(),
            match r {
                Ok((entry, class, class_size)) => {
                    let pair = spec_node_pair(entry.index) as int;
                    let side = spec_node_side(entry.index);
                    let key = BuddyKey { class: class as int, index: entry.index };
                    &&& start <= class < final(self).sizes@.len()
                    &&& class_size == final(self).tree().class_size(class as int)
                    &&& final(self).tree().held(class as int, entry.index)
                    &&& entry.chunk == final(self).tree().pair(class as int, pair).chunk
                    &&& entry.offset == half_offset(
                        final(self).tree().pair(class as int, pair).offset,
                        side,
                        class_size,
                    )
                    &&& forall|c: int|
                        start <= c < class ==> !(#[trigger] final(self).sizes@[c]).has_ready()
                            && final(self).sizes@[c].has_room()
                    &&& !old(self).live().contains(key)
                    &&& final(self).live() == old(self).live().insert(key)
                    &&& old(self).class_ready(class as int) ==> {
                        &&& old(self).serves_from(start as int, class as int)
                        &&& pair == old(self).ready_pair(class as int)
                        &&& old(self).tree().occ(class as int, pair)
                        &&& old(self).tree().pair(class as int, pair).usage(side) == Use::Free
                        &&& entry.chunk == old(self).tree().pair(class as int, pair).chunk
                        &&& entry.offset == old(self).tree().start(class as int, pair, side)
                        &&& final(self).tree() == old(self).tree().with_usage(
                            class as int,
                            pair,
                            side,
                            Use::Held,
                        )
                    }
                    &&& !old(self).class_ready(class as int) ==> {
                        &&& class + 1 == old(self).sizes@.len()
                        &&& old(self).grows_for(start as int)
                        &&& entry.index % 2 == 0
                        &&& entry.offset == 0
                        &&& final(self).ready_pair(class as int) == pair
                        &&& final(self).class_ready(class as int)
                        &&& entry.chunk <= old(self).tree().chunks.len()
                        &&& !old(self).tree().chunk_occ(entry.chunk as int)
                        &&& final(self).tree() == old(self).tree().with_root(
                            class as int,
                            pair,
                            entry.chunk as int,
                        )
                        &&& final(heap).spec_used() == old(heap).spec_used() + 2 * class_size
                        &&& *final(allocations_remains) == *old(allocations_remains) - 1
                        &&& final(self).objects_held() == old(self).objects_held() + 1
                    }
                },
                Err(err) => {
                    &&& final(self).live() == old(self).live()
                    &&& final(self).tree() == old(self).tree()
                    &&& final(heap).spec_used() == old(heap).spec_used()
                    &&& *final(allocations_remains) == *old(allocations_remains)
                    &&& err != AllocationError::NoCompatibleMemoryTypes
                    &&& err == AllocationError::TooManyObjects ==> *final(allocations_remains) == 0
                },
            },
            old(self).grows_for(start as int) && *old(allocations_remains) == 0 ==> r is Err
                && r->Err_0 == AllocationError::TooManyObjects,
            old(self).grows_for(start as int) && *old(allocations_remains) > 0 && old(
                self,
            ).tree().class_size(old(self).sizes@.len() as int) > old(heap).spec_budget() ==> r
                is Err && r->Err_0 == AllocationError::OutOfDeviceMemory,
            old(self).tree().within(final(self).tree()),
            forall|c: int|
                old(self).serves_from(start as int, c) ==> r is Ok && r->Ok_0.1 == c && *final(heap)
                    == *old(heap) && *final(allocations_remains) == *old(allocations_remains),
    {
        let mut class = start;
        let mut class_size = start_size;
        let classes = self.sizes.len();
        proof {
            self.tree().lemma_within_self();
        }
        loop
            invariant
                self.wf(),
                self.same_parameters(old(self)),
                classes == self.sizes@.len(),
                self.tree() == old(self).tree(),
                self.sizes@ == old(self).sizes@,
                *heap == *old(heap),
                *allocations_remains == *old(allocations_remains),
                old(heap).wf(),
                self.chunks == old(self).chunks,
                start <= class < self.sizes@.len(),
                class_size == self.tree().class_size(class as int),
                forall|c: int|
                    start <= c < class ==> !(#[trigger] self.sizes@[c]).has_ready()
                        && self.sizes@[c].has_room(),
                forall|c: int| old(self).serves_from(start as int, c) ==> class <= c,
            decreases self.sizes@.len() - class,
        {
            let ghost tree = self.tree();
            proof {
                assert forall|c: int| old(self).serves_from(start as int, c) && c
                    == class implies self.sizes@[class as int].has_ready() by {
                    assert(old(self).class_ready(c));
                }
                assert forall|c: int| old(self).serves_from(start as int, c) && c
                    > class implies self.sizes@[class as int].has_room() && class + 1
                    < classes by {
                    assert(!old(self).class_ready(class as int) && old(self).class_room(
                        class as int,
                    ));
                    assert(old(self).class_ready(c));
                }
            }
            proof {
                if old(self).grows_for(start as int) {
                    assert(!old(self).class_ready(class as int));
                    assert(old(self).class_room(class as int));
                }
                assert forall|c: int| start <= c < class implies !#[trigger] old(
                    self,
                ).class_ready(c) && old(self).class_room(c) by {
                    assert(!self.sizes@[c].has_ready() && self.sizes@[c].has_room());
                }
            }
            match self.acquire_at(class, class_size) {
                Some(entry) => {
                    proof {
                        let pair = spec_node_pair(entry.index) as int;
                        let side = spec_node_side(entry.index);
                        tree.lemma_place(class as int, pair);
                        tree.lemma_live_hold(class as int, pair, side);
                        assert forall|c: int| old(self).serves_from(start as int, c) implies c
                            == class by {
                            if c > class {
                                assert(!old(self).class_ready(class as int));
                            }
                        }
                    }
                    return Ok((entry, class, class_size));
                },
                None => {},
            }
            proof {
                tree.lemma_sizes_fit();
                tree.lemma_class_sizes(class as int);
            }
            if class + 1 == classes {
                match self.grow(device, class, class_size, flags, heap, allocations_remains) {
                    Ok(entry) => {
                        proof {
                            let pair = spec_node_pair(entry.index) as int;
                            tree.lemma_live_root(class as int, pair, entry.chunk as int);
                        }
                        return Ok((entry, class, class_size));
                    },
                    Err(err) => {
                        return Err(err);
                    },
                }
            }
            if !self.sizes[class].room() {
                return Err(AllocationError::OutOfHostMemory);
            }
            class += 1;
            class_size = class_size * 2;
        }
    }

    /// Gives a block back to the allocator. The block is joined with its buddy if that
    /// is free, the joined block with its buddy, and so on; a chunk that is whole again
    /// goes back to the device: the heap is charged with the size of the chunk less,
    /// and the device can give one memory object more. The other live blocks lie
    /// where they lay, and a chunk is held afterwards exactly if one of them lies in
    /// it: `lemma_chunk_held`.
    pub fn dealloc<D: MemoryDevice<M>>(
        &mut self,
        device: &D,
        block: BuddyBlock<M>,
        heap: &mut Heap,
        allocations_remains: &mut u32,
    )
        requires
            old(self).wf(),
            old(self).owns(&block),
            old(heap).wf(),
            old(self).bytes_held() <= old(heap).spec_used(),
            old(self).objects_held() + *old(allocations_remains) <= u32::MAX,
        ensures
            final(self).wf(),
            final(self).same_parameters(old(self)),
            final(self).live() == old(self).live().remove(old(self).key_of(&block)),
            final(self).keeps_blocks_of(old(self)),
            final(self).keeps_chunks_of(old(self)),
            final(self).tree().within(old(self).tree()),
            final(self).tree().classes.len() == old(self).tree().classes.len(),
            ({
                let c = old(self).place(old(self).key_of(&block)).0 as int;
                let freed = !final(self).tree().chunk_occ(c);
                &&& old(self).tree().chunk_occ(c)
                &&& final(self).objects_held() + (if freed {
                    1nat
                } else {
                    0nat
                }) == old(self).objects_held()
                &&& final(heap).spec_used() + (if freed {
                    old(self).chunk_size(c) as int
                } else {
                    0int
                }) == old(heap).spec_used()
                &&& *final(allocations_remains) == *old(allocations_remains) + (if freed {
                    1int
                } else {
                    0int
                })
            }),
            final(self).live() == Set::<BuddyKey>::empty() ==> final(self).objects_held() == 0
                && final(self).bytes_held() == 0 && *final(allocations_remains) == *old(
                allocations_remains,
            ) + old(self).objects_held() && final(heap).spec_used() + old(self).bytes_held()
                == old(heap).spec_used() && (forall|chunk: int| !final(self).tree().chunk_occ(chunk))
                && (forall|class: int, pair: int| !final(self).tree().occ(class, pair)),
            final(heap).wf(),
            final(heap).spec_size() == old(heap).spec_size(),
            final(heap).spec_used() <= old(heap).spec_used(),
            final(self).objects_held() <= old(self).objects_held(),
            final(heap).spec_used() + old(self).bytes_held()
                == old(heap).spec_used() + final(self).bytes_held(),
            *final(allocations_remains) + final(self).objects_held() == *old(allocations_remains)
                + old(self).objects_held(),
    {
        let ghost target = self.class_of(block.size);
        let ghost key = self.key_of(&block);
        let classes = self.sizes.len();
        let mut class: usize = 0;
        let mut class_size = self.minimal_size;
        proof {
            self.tree().lemma_sizes_fit();
            lemma2_to64();
            assert(self.minimal_size * pow2(0) == self.minimal_size) by (nonlinear_arith)
                requires
                    pow2(0) == 1,
            ;
        }
        while class_size < block.size
            invariant
                self.tree().sizes_fit(),
                classes == self.sizes@.len(),
                0 <= class <= target < self.sizes@.len(),
                self.tree().class_size(target) == block.size,
                class_size == self.tree().class_size(class as int),
            decreases target - class,
        {
            proof {
                if class == target {
                } else {
                    self.tree().lemma_class_sizes(class as int);
                }
            }
            class += 1;
            class_size = class_size * 2;
        }
        proof {
            if class < target {
                self.tree().lemma_class_unique(class as int, target);
            }
            assert(BuddyKey { class: class as int, index: block.index } == key);
        }
        let mut index = block.index;
        proof {
            self.tree().lemma_within_self();
            self.tree().lemma_place(key.class, spec_node_pair(key.index) as int);
        }
        loop
            invariant
                self.wf(),
                self.same_parameters(old(self)),
                classes == self.sizes@.len(),
                classes == old(self).sizes@.len(),
                self.chunks == old(self).chunks,
                *heap == *old(heap) || heap.spec_used() == old(heap).spec_used(),
                *allocations_remains == *old(allocations_remains),
                self.tree().pair(class as int, spec_node_pair(index) as int).chunk == old(
                    self,
                ).place(key).0,
                old(self).tree().chunk_occ(old(self).place(key).0 as int),
                class < self.sizes@.len(),
                key == old(self).key_of(&block),
                old(self).wf(),
                self.tree().within(old(self).tree()),
                self.tree().held(class as int, index),
                self.live().remove(BuddyKey { class: class as int, index }) == old(
                    self,
                ).live().remove(key),
                heap.wf(),
                heap.spec_size() == old(heap).spec_size(),
                self.bytes_held() <= heap.spec_used(),
                self.objects_held() + *allocations_remains <= u32::MAX,
                self.objects_held() <= old(self).objects_held(),
                heap.spec_used() <= old(heap).spec_used(),
                heap.spec_used() + old(self).bytes_held() == old(heap).spec_used()
                    + self.bytes_held(),
                *allocations_remains + self.objects_held() == *old(allocations_remains) + old(
                    self,
                ).objects_held(),
            decreases self.sizes@.len() - class,
        {
            let ghost before = self.live();
            let ghost before_tree = self.tree();
            let ghost current = BuddyKey { class: class as int, index };
            let released = self.release_at(device, class, index, heap, allocations_remains);
            proof {
                self.tree().lemma_within_transitive(before_tree, old(self).tree());
            }
            match released {
                Some(parent) => {
                    proof {
                        let next = BuddyKey { class: class + 1, index: parent };
                        assert(self.live().remove(next) =~= before.remove(current));
                    }
                    class += 1;
                    index = parent;
                },
                None => {
                    proof {
                        self.lemma_keeps_blocks(old(self), false);
                        if self.live() == Set::<BuddyKey>::empty() {
                            self.lemma_empty_holds_nothing();
                        }
                    }
                    return ;
                },
            }
        }
    }
}

impl<M> BuddyAllocator<M> {
    /// At most one class is the class of a request.
    pub proof fn lemma_request_class_unique(&self, size: u64, align_mask: u64, a: int, b: int)
        requires
            self.wf(),
            self.is_request_class(size, align_mask, a),
            self.is_request_class(size, align_mask, b),
        ensures
            a == b,
    {
        self.tree().lemma_sizes_fit();
        if a < b {
            if a < b - 1 {
                self.tree().lemma_class_unique(a, b - 1);
            }
        } else if b < a {
            if b < a - 1 {
                self.tree().lemma_class_unique(b, a - 1);
            }
        }
    }

    /// The class of the blocks that serve a request, the size of its halves, and the
    /// size of the request rounded up to the two masks. `None` if the size cannot be
    /// rounded up, or if a chunk of that class would have more than `u64::MAX` bytes.
    fn class_of_request(&self, size: u64, align_mask: u64) -> (r: Option<(usize, u64, u64)>)
        requires
            self.wf(),
        ensures
            match r {
                Some((class, class_size, aligned)) => {
                    &&& spec_align_up(spec_effective_size(size), align_mask | self.atom_mask)
                        == Some(aligned)
                    &&& aligned >= spec_effective_size(size)
                    &&& aligned & (align_mask | self.atom_mask) == 0
                    &&& self.is_request_class(size, align_mask, class as int)
                    &&& class_size == self.tree().class_size(class as int)
                    &&& spec_is_power_of_two(class_size)
                    &&& 2 * class_size <= u64::MAX
                    &&& class_size >= 1
                    &&& self.tree().unit * pow2((class + 1) as nat) <= u64::MAX
                    &&& forall|start: int|
                        self.is_request_class(size, align_mask, start) ==> start == class
                },
                None => spec_align_up(spec_effective_size(size), align_mask | self.atom_mask)
                    is None || forall|start: int|
                    self.is_request_class(size, align_mask, start) ==> 2 * self.tree().class_size(
                        start,
                    ) > u64::MAX,
            },
    {
        let combined = align_mask | self.atom_mask;
        let wanted = effective_size(size);
        let aligned = match align_up(wanted, combined) {
            Some(aligned) => aligned,
            None => {
                return None;
            },
        };
        let mut class: usize = 0;
        let mut class_size = self.minimal_size;
        proof {
            self.tree().lemma_sizes_fit();
            lemma2_to64();
            assert(self.minimal_size * pow2(0) == self.minimal_size) by (nonlinear_arith)
                requires
                    pow2(0) == 1,
            ;
        }
        while class_size < aligned
            invariant
                self.wf(),
                class_size >= 1,
                class_size == self.tree().class_size(class as int),
                spec_is_power_of_two(class_size),
                class <= 64,
                forall|c: int| 0 <= c < class ==> self.tree().class_size(c) < aligned,
                spec_align_up(spec_effective_size(size), align_mask | self.atom_mask) == Some(
                    aligned,
                ),
                aligned >= spec_effective_size(size),
                aligned & (align_mask | self.atom_mask) == 0,
            decreases 64 - class,
        {
            if class_size > u64::MAX / 2 || class >= 64 {
                proof {
                    assert forall|start: int|
                        self.is_request_class(size, align_mask, start) implies 2
                        * self.tree().class_size(start) > u64::MAX by {
                        if 2 * self.tree().class_size(start) <= u64::MAX {
                            self.lemma_request_class(aligned, class as int, start);
                        }
                    }
                }
                return None;
            }
            proof {
                lemma_pow2_unfold((class + 1) as nat);
                assert(self.minimal_size * (2 * pow2(class as nat)) == 2 * (self.minimal_size
                    * pow2(class as nat))) by (nonlinear_arith);
                lemma_double_power_of_two(class_size);
            }
            class_size = class_size * 2;
            class += 1;
        }
        proof {
            assert(self.is_request_class(size, align_mask, class as int));
            assert forall|start: int|
                self.is_request_class(size, align_mask, start) implies start == class by {
                self.lemma_request_class_unique(size, align_mask, start, class as int);
            }
        }
        if class_size > u64::MAX / 2 {
            return None;
        }
        proof {
            lemma_pow2_unfold((class + 1) as nat);
            assert(self.minimal_size * (2 * pow2(class as nat)) == 2 * (self.minimal_size * pow2(
                class as nat,
            ))) by (nonlinear_arith);
        }
        Some((class, class_size, aligned))
    }

    /// Splits the node `first` of the class `found_class`, which was handed out, down
    /// to the class `class`: the left half at each step. `base` is the set of the live
    /// blocks apart from the node.
    fn split_down(
        &mut self,
        class: usize,
        first: SizeBlockEntry,
        found_class: usize,
        found_size: u64,
        Ghost(base): Ghost<Set<BuddyKey>>,
    ) -> (entry: SizeBlockEntry)
        requires
            old(self).wf(),
            class <= found_class < old(self).sizes@.len(),
            found_size == old(self).tree().class_size(found_class as int),
            old(self).tree().held(found_class as int, first.index),
            first.chunk == old(self).tree().pair(
                found_class as int,
                spec_node_pair(first.index) as int,
            ).chunk,
            first.offset == half_offset(
                old(self).tree().pair(found_class as int, spec_node_pair(first.index) as int).offset,
                spec_node_side(first.index),
                found_size,
            ),
            forall|c: int|
                class <= c < found_class ==> !(#[trigger] old(self).sizes@[c]).has_ready() && old(
                    self,
                ).sizes@[c].has_room(),
            !base.contains(BuddyKey { class: found_class as int, index: first.index }),
            old(self).live() == base.insert(
                BuddyKey { class: found_class as int, index: first.index },
            ),
        ensures
            final(self).wf(),
            final(self).same_parameters(old(self)),
            final(self).chunks == old(self).chunks,
            final(self).sizes@.len() == old(self).sizes@.len(),
            final(self).tree().held(class as int, entry.index),
            entry.chunk == first.chunk,
            entry.offset == first.offset,
            entry.chunk == final(self).tree().pair(
                class as int,
                spec_node_pair(entry.index) as int,
            ).chunk,
            entry.offset == half_offset(
                final(self).tree().pair(class as int, spec_node_pair(entry.index) as int).offset,
                spec_node_side(entry.index),
                #[verifier::truncate]
                (final(self).tree().class_size(class as int) as u64),
            ),
            class < found_class ==> entry.index % 2 == 0 && final(self).tree().pair(
                class as int,
                spec_node_pair(entry.index) as int,
            ).right == Use::Free && final(self).ready_pair(class as int) == spec_node_pair(
                entry.index,
            ) && final(self).class_ready(class as int),
            class == found_class ==> entry == first && *final(self) == *old(self),
            !base.contains(BuddyKey { class: class as int, index: entry.index }),
            final(self).live() == base.insert(BuddyKey { class: class as int, index: entry.index }),
            old(self).tree().within(final(self).tree()),
    {
        let mut entry = first;
        let mut current = found_class;
        let mut current_size = found_size;
        proof {
            self.tree().lemma_within_self();
        }
        while current > class
            invariant
                self.wf(),
                self.same_parameters(old(self)),
                self.chunks == old(self).chunks,
                self.sizes@.len() == old(self).sizes@.len(),
                class <= current <= found_class,
                current < self.sizes@.len(),
                current_size == self.tree().class_size(current as int),
                self.tree().held(current as int, entry.index),
                entry.chunk == first.chunk,
                entry.offset == first.offset,
                entry.chunk == self.tree().pair(
                    current as int,
                    spec_node_pair(entry.index) as int,
                ).chunk,
                entry.offset == half_offset(
                    self.tree().pair(current as int, spec_node_pair(entry.index) as int).offset,
                    spec_node_side(entry.index),
                    current_size,
                ),
                forall|c: int|
                    class <= c < current ==> !(#[trigger] self.sizes@[c]).has_ready()
                        && self.sizes@[c].has_room(),
                current < found_class ==> entry.index % 2 == 0 && self.tree().pair(
                    current as int,
                    spec_node_pair(entry.index) as int,
                ).right == Use::Free && self.ready_pair(current as int) == spec_node_pair(
                    entry.index,
                ) && self.class_ready(current as int),
                current == found_class ==> entry == first && *self == *old(self),
                !base.contains(BuddyKey { class: current as int, index: entry.index }),
                self.live() == base.insert(BuddyKey { class: current as int, index: entry.index }),
                old(self).wf(),
                old(self).tree().within(self.tree()),
            decreases current,
        {
            let ghost tree = self.tree();
            let ghost before = self.live();
            proof {
                tree.lemma_sizes_fit();
                tree.lemma_class_sizes(current - 1);
                tree.lemma_place(current as int, spec_node_pair(entry.index) as int);
            }
            current -= 1;
            current_size = current_size / 2;
            let parent = entry;
            entry = self.split_into(current, parent);
            proof {
                let child = spec_node_pair(entry.index) as int;
                tree.lemma_live_split(
                    current + 1,
                    spec_node_pair(parent.index) as int,
                    spec_node_side(parent.index),
                    child,
                );
                let child_key = BuddyKey { class: current as int, index: entry.index };
                assert(self.live() =~= base.insert(child_key));
                old(self).tree().lemma_within_transitive(tree, self.tree());
            }
        }
        entry
    }
}

impl<M: Clone> BuddyAllocator<M> {
    /// Allocates a block of at least `size` bytes, aligned to `align_mask` and to the
    /// allocator's own mask.
    ///
    /// The block is a half of the smallest class that holds `size` bytes rounded up
    /// to the two masks: `is_request_class` names the class. A free half of that class
    /// is taken if there is one, that of the pair `ready_pair`; else a free half of the
    /// next larger class that has one is split, down to the class of the block; else a
    /// new chunk is allocated from the device, if the limit of memory objects and the
    /// heap's budget allow it, and split. Of what is split the left half is taken, and
    /// the right half is free and taken next. A new chunk has the size of a class
    /// above the largest, is charged to the heap once, and takes one memory object of
    /// the device; a request that needs one fails with `TooManyObjects` where the
    /// device can give none, and nothing is changed. `settle_chunk` says what becomes
    /// of a new chunk for what the device returned for mapping it.
    pub fn allocate<D: MemoryDevice<M>>(
        &mut self,
        device: &D,
        size: u64,
        align_mask: u64,
        flags: AllocationFlags,
        heap: &mut Heap,
        allocations_remains: &mut u32,
    ) -> (r: Result<BuddyBlock<M>, AllocationError>)
        requires
            old(self).wf(),
            old(heap).wf(),
        ensures
            final(self).wf(),
            final(self).same_parameters(old(self)),
            final(self).keeps_chunks_of(old(self)),
            final(heap).wf(),
            final(heap).spec_size() == old(heap).spec_size(),
            final(heap).spec_used() + old(self).bytes_held()
                == old(heap).spec_used() + final(self).bytes_held(),
            *final(allocations_remains) + final(self).objects_held() == *old(allocations_remains)
                + old(self).objects_held(),
            match r {
                Ok(block) => {
                    let key = final(self).key_of(&block);
                    let aligned = spec_align_up(
                        spec_effective_size(size),
                        align_mask | old(self).spec_atom_mask(),
                    );
                    let pair = spec_node_pair(block.index) as int;
                    &&& final(self).owns(&block)
                    &&& !old(self).live().contains(key)
                    &&& final(self).live() == old(self).live().insert(key)
                    &&& final(self).place(key) == (
                        block.chunk,
                        block.offset as int,
                        block.size as int,
                    )
                    &&& forall|other: BuddyKey|
                        #[trigger] old(self).live().contains(other) && final(self).place(other).0
                            == block.chunk ==> final(self).place(other).1 + final(self).place(
                            other,
                        ).2 <= block.offset || block.offset + block.size <= final(self).place(
                            other,
                        ).1
                    &&& aligned is Some
                    &&& block.size >= aligned->0
                    &&& block.size >= spec_effective_size(size)
                    &&& key.class >= 1 ==> final(self).tree().class_size(key.class - 1)
                        < aligned->0
                    &&& old(self).is_request_class(size, align_mask, key.class)
                    &&& block.size == old(self).tree().class_size(key.class)
                    &&& forall|start: int|
                        old(self).is_request_class(size, align_mask, start) ==> start
                            == key.class
                    &&& block.chunk == final(self).tree().pair(key.class, pair).chunk
                    &&& block.offset == half_offset(
                        final(self).tree().pair(key.class, pair).offset,
                        spec_node_side(block.index),
                        block.size,
                    )
                    &&& final(self).tree().chunk_occ(block.chunk as int)
                    &&& block.offset + block.size
                        <= final(self).tree().chunks[block.chunk as int]->0.size
                    &&& (block.ptr is Some) == old(self).spec_props().spec_is_host_visible()
                    &&& block.ptr is Some ==> block.ptr->0 + block.size <= usize::MAX
                    &&& block.ptr == match final(self).chunk_base(block.chunk as int) {
                        Some(base) => Some((base + block.offset) as usize),
                        None => None,
                    }
                    &&& final(self).chunk_memory(block.chunk as int) matches Some(memory)
                        && cloned(memory, block.memory)
                    &&& spec_is_power_of_two(block.size)
                    &&& block.offset & ((block.size - 1) as u64) == 0
                    &&& is_low_mask(old(self).spec_atom_mask()) ==> block.offset & old(
                        self,
                    ).spec_atom_mask() == 0 && block.size > old(self).spec_atom_mask()
                    &&& is_low_mask(align_mask | old(self).spec_atom_mask()) ==> block.offset & (
                    align_mask | old(self).spec_atom_mask()) == 0
                    &&& is_low_mask(align_mask | old(self).spec_atom_mask()) ==> block.size
                        > (align_mask | old(self).spec_atom_mask())
                },
                Err(err) => {
                    &&& final(self).live() == old(self).live()
                    &&& final(self).tree().chunks == old(self).tree().chunks
                    &&& final(heap).spec_used() == old(heap).spec_used()
                    &&& *final(allocations_remains) == *old(allocations_remains)
                    &&& err != AllocationError::NoCompatibleMemoryTypes
                    &&& err == AllocationError::TooManyObjects ==> *final(allocations_remains) == 0
                },
            },
            final(self).tree().classes.len() >= old(self).tree().classes.len(),
            spec_align_up(spec_effective_size(size), align_mask | old(self).spec_atom_mask())
                is None ==> r is Err && r->Err_0 == AllocationError::OutOfDeviceMemory,
            final(self).keeps_blocks_of(old(self)),
            old(self).tree().within(final(self).tree()),
            old(self).serves_without_device(size, align_mask) ==> r is Ok && *final(heap) == *old(
                heap,
            ) && *final(allocations_remains) == *old(allocations_remains),
            forall|start: int, class: int|
                old(self).is_request_class(size, align_mask, start) && #[trigger] old(
                    self,
                ).serves_from(start, class) ==> r is Ok && old(self).free_at(
                    class,
                    r->Ok_0.chunk,
                    r->Ok_0.offset as int,
                ) && (class > start ==> r->Ok_0.index % 2 == 0 && final(self).tree().pair(
                    start,
                    spec_node_pair(r->Ok_0.index) as int,
                ).right == Use::Free && final(self).class_ready(start) && final(self).ready_pair(start) == spec_node_pair(r->Ok_0.index)) && (class == start
                    ==> spec_node_pair(r->Ok_0.index) == old(self).ready_pair(start) && old(
                    self,
                ).tree().pair(start, spec_node_pair(r->Ok_0.index) as int).usage(
                    spec_node_side(r->Ok_0.index),
                ) == Use::Free && final(self).tree() == old(self).tree().with_usage(
                    start,
                    spec_node_pair(r->Ok_0.index) as int,
                    spec_node_side(r->Ok_0.index),
                    Use::Held,
                )),
            r is Ok && !old(self).serves_without_device(size, align_mask) ==> {
                let block = r->Ok_0;
                let start = final(self).key_of(&block).class;
                &&& block.offset == 0
                &&& block.index % 2 == 0
                &&& final(self).tree().pair(start, spec_node_pair(block.index) as int).right
                    == Use::Free
                &&& final(self).class_ready(start)
                &&& final(self).ready_pair(start) == spec_node_pair(block.index)
                &&& !old(self).tree().chunk_occ(block.chunk as int)
                &&& old(self).grows_for(start)
                &&& final(self).tree().classes.len() == old(self).classes_for(start)
                &&& final(self).chunk_size(block.chunk as int) == final(self).tree().class_size(
                    old(self).classes_for(start),
                )
                &&& final(heap).spec_used() == old(heap).spec_used() + final(self).chunk_size(
                    block.chunk as int,
                )
                &&& *final(allocations_remains) == *old(allocations_remains) - 1
                &&& final(self).objects_held() == old(self).objects_held() + 1
            },
            forall|start: int|
                old(self).is_request_class(size, align_mask, start) && 2 * old(
                    self,
                ).tree().class_size(start) <= u64::MAX && #[trigger] old(self).grows_for(start)
                    ==> (*old(allocations_remains) == 0 ==> r is Err && r->Err_0
                    == AllocationError::TooManyObjects) && (*old(allocations_remains) > 0 && old(
                    self,
                ).tree().class_size(old(self).classes_for(start)) > old(heap).spec_budget() ==> r
                    is Err && r->Err_0 == AllocationError::OutOfDeviceMemory),
    {
        let ghost served = old(self).serves_without_device(size, align_mask);
        let ghost asked = if served {
            choose|start: int, class: int|
                old(self).is_request_class(size, align_mask, start) && #[trigger] old(
                    self,
                ).serves_from(start, class)
        } else {
            (0int, 0int)
        };
        proof {
            self.tree().lemma_within_self();
            self.tree().lemma_sizes_fit();
            if served {
                assert(old(self).class_ready(asked.1));
                self.tree().lemma_class_sizes(asked.0);
            }
        }
        let combined = align_mask | self.atom_mask;
        let wanted = effective_size(size);
        let (class, class_size, aligned) = match self.class_of_request(size, align_mask) {
            Some(found) => found,
            None => {
                return Err(AllocationError::OutOfDeviceMemory);
            },
        };
        assert(served ==> class == asked.0);
        self.extend_to(class);
        let ghost extended = self.tree();
        let ghost ready = *self;
        proof {
            if served {
                self.lemma_serves_still(old(self), asked.0, asked.1);
            }
            old(self).lemma_grows_still(self, class as int);
            self.tree().lemma_sizes_fit();
            self.tree().lemma_class_sizes(self.sizes@.len() - 1);
        }
        let (first, found_class, found_size) = match self.find_block(
            device,
            class,
            class_size,
            flags,
            heap,
            allocations_remains,
        ) {
            Ok(found) => found,
            Err(err) => {
                proof {
                    old(self).tree().lemma_within_transitive(extended, self.tree());
                    self.lemma_keeps_blocks(old(self), true);
                }
                return Err(err);
            },
        };
        let ghost found = *self;
        proof {
            old(self).tree().lemma_within_transitive(extended, self.tree());
            if ready.class_ready(found_class as int) {
                assert(ready.sizes@[found_class as int].has_ready());
                assert(found_class < old(self).sizes@.len());
                assert(ready == *old(self));
                assert(old(self).serves_from(class as int, found_class as int));
                assert(served);
                let pair = spec_node_pair(first.index) as int;
                let side = spec_node_side(first.index);
                assert(old(self).tree().start(found_class as int, pair, side) == first.offset);
                assert(old(self).free_at(found_class as int, first.chunk, first.offset as int));
            } else {
                lemma_put_chunk_at(
                    extended.chunks,
                    first.chunk as int,
                    ChunkInfo {
                        size: (2 * found_size) as u64,
                        root_class: found_class as int,
                        root_pair: spec_node_pair(first.index) as int,
                    },
                );
                if served {
                    assert(ready.class_ready(asked.1));
                }
            }
        }
        let entry = self.split_down(class, first, found_class, found_size, Ghost(old(self).live()));
        proof {
            old(self).tree().lemma_within_transitive(found.tree(), self.tree());
            self.tree().lemma_place(class as int, spec_node_pair(entry.index) as int);
            self.tree().lemma_sizes_fit();
            self.tree().lemma_class_sizes(class as int);
            self.lemma_class_of(class as int);
            self.tree().lemma_aligned(
                class as int,
                spec_node_pair(entry.index) as int,
                spec_node_side(entry.index),
            );
            if is_low_mask(combined) {
                lemma_align_up_exceeds_mask(wanted, combined);
                lemma_aligned_to_lesser(entry.offset, class_size, combined);
            }
            if is_low_mask(self.atom_mask) {
                lemma_aligned_exceeds(aligned, align_mask, self.atom_mask);
                lemma_aligned_to_lesser(entry.offset, class_size, self.atom_mask);
            }
            self.lemma_keeps_blocks(old(self), true);
            let taken = BuddyKey { class: class as int, index: entry.index };
            assert forall|other: BuddyKey|
                #[trigger] old(self).live().contains(other) && self.place(other).0
                    == entry.chunk implies self.place(other).1 + self.place(other).2
                <= entry.offset || entry.offset + class_size <= self.place(other).1 by {
                self.lemma_live_blocks_disjoint(taken, other);
            }
            assert forall|chunk: int|
                old(self).tree().chunk_occ(chunk) && self.tree().chunk_occ(
                    chunk,
                ) implies self.chunk_memory(chunk) == old(self).chunk_memory(chunk)
                && self.chunk_base(chunk) == old(self).chunk_base(chunk) by {
                assert(ready.tree().chunk_occ(chunk) && found.tree().chunk_occ(chunk));
                assert(found.chunk_memory(chunk) == ready.chunk_memory(chunk));
                assert(found.chunk_base(chunk) == ready.chunk_base(chunk));
            }
        }
        let chunk = self.chunks.get(entry.chunk);
        let ptr = match chunk.ptr {
            Some(base) => Some(base + entry.offset as usize),
            None => None,
        };
        Ok(
            BuddyBlock {
                memory: chunk.memory.clone(),
                ptr,
                size: class_size,
                chunk: entry.chunk,
                offset: entry.offset,
                index: entry.index,
            },
        )
    }
}

proof fn lemma_same_chunks(a: Seq<Option<ChunkInfo>>, b: Seq<Option<ChunkInfo>>)
    requires
        forall|chunk: int|
            (0 <= chunk < a.len() && a[chunk] is Some) <==> (0 <= chunk < b.len() && b[chunk]
                is Some),
        forall|chunk: int|
            0 <= chunk < a.len() && a[chunk] is Some ==> a[chunk]->0.size == b[chunk]->0.size,
    ensures
        count_some(a) == count_some(b),
        total_size(a) == total_size(b),
    decreases a.len() + b.len(),
{
    if a.len() == 0 {
        assert forall|chunk: int| 0 <= chunk < b.len() implies b[chunk] is None by {}
        lemma_nothing_held(b);
    } else if b.len() == 0 {
        assert forall|chunk: int| 0 <= chunk < a.len() implies a[chunk] is None by {}
        lemma_nothing_held(a);
    } else if a.len() > b.len() {
        assert(a.last() is None);
        lemma_same_chunks(a.drop_last(), b);
    } else if a.len() < b.len() {
        assert(b.last() is None);
        lemma_same_chunks(a, b.drop_last());
    } else {
        assert(a.last() is Some <==> b.last() is Some);
        lemma_same_chunks(a.drop_last(), b.drop_last());
    }
}

proof fn lemma_nothing_held(chunks: Seq<Option<ChunkInfo>>)
    requires
        forall|chunk: int| 0 <= chunk < chunks.len() ==> chunks[chunk] is None,
    ensures
        count_some(chunks) == 0,
        total_size(chunks) == 0,
    decreases chunks.len(),
{
    if chunks.len() > 0 {
        lemma_nothing_held(chunks.drop_last());
    }
}

impl<M> BuddyAllocator<M> {
    /// When every block that was allocated has been given back, the allocator holds
    /// no memory object: every chunk went back to the device.
    pub proof fn lemma_empty_holds_nothing(&self)
        requires
            self.wf(),
            self.live() == Set::<BuddyKey>::empty(),
        ensures
            self.objects_held() == 0,
            self.bytes_held() == 0,
            forall|chunk: int| !self.tree().chunk_occ(chunk),
            forall|class: int, pair: int| !self.tree().occ(class, pair),
            forall|class: int| !self.class_ready(class),
            forall|size: u64, align_mask: u64| !self.serves_without_device(size, align_mask),
    {
        let tree = self.tree();
        assert forall|class: int| !self.class_ready(class) by {
            if 0 <= class < tree.classes.len() {
                self.lemma_class_ready(class);
                if tree.has_free(class) {
                    let pair = choose|pair: int| #[trigger]
                        tree.occ(class, pair) && (tree.pair(class, pair).left is Free
                            || tree.pair(class, pair).right is Free);
                    tree.lemma_no_pair_without_live(class, pair);
                }
            }
        }
        assert forall|class: int, pair: int| !tree.occ(class, pair) by {
            tree.lemma_no_pair_without_live(class, pair);
        }
        assert forall|chunk: int| !tree.chunk_occ(chunk) by {
            tree.lemma_no_chunk_without_live(chunk);
        }
        assert forall|chunk: int| 0 <= chunk < tree.chunks.len() implies tree.chunks[chunk]
            is None by {
            assert(!tree.chunk_occ(chunk));
        }
        lemma_nothing_held(tree.chunks);
    }
}

} // verus!
