//! The block-based bounded ring buffer.
//!
//! Storage is split into `BLOCK_NUM` blocks of `SLOT_NUM` slots. Producers
//! fill the block under the global `head` cursor and consumers drain the
//! block under `tail`; each side moves to the next block only through an
//! advance protocol once its current block is exhausted. Every cursor packs
//! a slot index (low bits) and a lap version (high bits), so one word carries
//! both position and generation.

use crate::cursor::cursor_index;
use crate::cursor::cursor_version;
use crate::cursor::is_pow2;
use crate::cursor::lemma_pow2_double;
use crate::cursor::lemma_pow2_positive;
use vstd::prelude::*;

verus! {

/// One monotonic-max bump of a cursor cell: the sequential form of
/// an atomic `fetch_max`, returning the previous value.
fn fetch_max(cell: &mut usize, value: usize) -> (prev: usize)
    ensures
        prev == *old(cell),
        *final(cell) == (if value > *old(cell) {
            value
        } else {
            *old(cell)
        }),
{
    let prev: usize = *cell;
    if value > prev {
        *cell = value;
    }
    prev
}

/// What a producer learns from one commit attempt on a block.
enum CommitResult<T> {
    /// The value was written and published.
    Success,
    /// The block's producer capacity is exhausted for this lap; the value
    /// comes back to the caller.
    BlockDone(T),
}

/// What a consumer learns from one consume attempt on a block.
enum ConsumeResult<T> {
    /// No published entry past what this block already handed out.
    NoEntry,
    /// A producer has claimed the next slot but not yet published it.
    NotAvailable,
    /// The block's consumer capacity is exhausted for this lap.
    BlockDone,
    /// One entry, removed from its slot.
    Success(T),
}

/// Outcome of moving the producer frontier to the next block.
enum AdvanceHeadResult {
    Success,
    /// The next block still holds unconsumed entries: the ring is full.
    NoEntry,
    /// Consumers are still mid-consume on the next block.
    NotAvailable,
}

/// Outcome of moving the consumer frontier to the next block.
enum AdvanceTailResult {
    /// The next block has not been filled for the matching lap: the ring is
    /// empty at the tail.
    NoEntry,
    Success,
}

/// One block of the ring: a run of slots plus four packed cursors.
///
/// `allocated` counts slots claimed by producers, `committed` slots made
/// visible to consumers, `reserved` slots claimed by consumers, `consumed`
/// slots fully drained; each packs its count with the block's current lap
/// version.
struct Block<T> {
    allocated: usize,
    committed: usize,
    reserved: usize,
    consumed: usize,
    slots: Vec<Option<T>>,
    one_lap: usize,
}

impl<T> Block<T> {
    /// A fresh block whose four cursors all start at `initial`: `0` for the
    /// block producers begin in, `SLOT_NUM` for blocks that must first be
    /// handed over by an advance.
    fn new(one_lap: usize, initial: usize, slot_count: usize) -> (blk: Block<T>)
        ensures
            blk.allocated == initial,
            blk.committed == initial,
            blk.reserved == initial,
            blk.consumed == initial,
            blk.one_lap == one_lap,
            blk.slots@.len() == slot_count,
            forall|j: int| 0 <= j < slot_count ==> blk.slots@[j] is None,
    {
        let mut slots: Vec<Option<T>> = Vec::new();
        let mut j: usize = 0;
        while j < slot_count
            invariant
                j <= slot_count,
                slots@.len() == j,
                forall|i: int| 0 <= i < j ==> slots@[i] is None,
            decreases slot_count - j,
        {
            slots.push(None);
            j = j + 1;
        }
        Block { allocated: initial, committed: initial, reserved: initial, consumed: initial, slots, one_lap }
    }

    /// A producer's attempt to write one element into this block: claim the
    /// next slot by bumping `allocated`, write, then publish by bumping
    /// `committed`.
    #[verifier::loop_isolation(false)]
    fn try_commit(&mut self, value: T) -> (r: CommitResult<T>)
        requires
            is_pow2(old(self).one_lap),
            old(self).committed == old(self).allocated,
            old(self).allocated < usize::MAX,
        ensures
            final(self).reserved == old(self).reserved,
            final(self).consumed == old(self).consumed,
            final(self).one_lap == old(self).one_lap,
            ({
                let aidx = old(self).allocated as int % old(self).one_lap as int;
                if aidx >= old(self).slots@.len() {
                    &&& (r matches CommitResult::BlockDone(v) && v == value)
                    &&& *final(self) == *old(self)
                } else {
                    &&& r is Success
                    &&& final(self).allocated == old(self).allocated + 1
                    &&& final(self).committed == old(self).committed + 1
                    &&& final(self).slots@ == old(self).slots@.update(aidx, Some(value))
                }
            }),
    {
        loop
            invariant
                *self == *old(self),
            // with exclusive access the max bump always wins, so the retry
            // edge is unreachable and the loop runs once
            decreases 0int,
        {
            let allocated: usize = self.allocated;
            let allocated_idx: usize = cursor_index(allocated, self.one_lap);

            if allocated_idx >= self.slots.len() {
                return CommitResult::BlockDone(value);
            }
            // claim the slot; a plain `fetch_add` could push the index past the
            // slot count and corrupt the version bits, a max bump cannot
            let prev: usize = fetch_max(&mut self.allocated, allocated + 1);
            if prev == allocated {
                self.slots[allocated_idx] = Some(value);
                // publish the write
                self.committed = self.committed + 1;
                return CommitResult::Success;
            }
        }
    }

    /// A consumer's attempt to take one element out of this block: claim the
    /// next published slot by bumping `reserved`, move the value out, then
    /// bump `consumed`.
    #[verifier::loop_isolation(false)]
    fn try_consume(&mut self) -> (r: ConsumeResult<T>)
        requires
            is_pow2(old(self).one_lap),
            old(self).reserved == old(self).consumed,
            old(self).allocated == old(self).committed,
            old(self).reserved < usize::MAX,
            ({
                let ridx = old(self).reserved as int % old(self).one_lap as int;
                let cnt = old(self).committed as int % old(self).one_lap as int;
                (ridx < old(self).slots@.len() && cnt != ridx) ==> old(self).slots@[ridx] is Some
            }),
        ensures
            final(self).allocated == old(self).allocated,
            final(self).committed == old(self).committed,
            final(self).one_lap == old(self).one_lap,
            ({
                let ridx = old(self).reserved as int % old(self).one_lap as int;
                let cnt = old(self).committed as int % old(self).one_lap as int;
                if ridx >= old(self).slots@.len() {
                    &&& r is BlockDone
                    &&& *final(self) == *old(self)
                } else if cnt == ridx {
                    &&& r is NoEntry
                    &&& *final(self) == *old(self)
                } else {
                    &&& (r matches ConsumeResult::Success(v) && v == old(self).slots@[ridx].unwrap())
                    &&& final(self).reserved == old(self).reserved + 1
                    &&& final(self).consumed == old(self).consumed + 1
                    &&& final(self).slots@ == old(self).slots@.update(ridx, None::<T>)
                }
            }),
    {
        loop
            invariant
                *self == *old(self),
            // as in `try_commit`: the retry edge is unreachable
            decreases 0int,
        {
            let reserved: usize = self.reserved;
            let reserved_idx: usize = cursor_index(reserved, self.one_lap);

            if reserved_idx < self.slots.len() {
                let committed: usize = self.committed;
                let committed_cnt: usize = cursor_index(committed, self.one_lap);

                if reserved_idx == committed_cnt {
                    return ConsumeResult::NoEntry;
                }
                if committed_cnt != self.slots.len() {
                    // an out-of-order publication would show up as a claimed
                    // but uncommitted slot below the committed count
                    let allocated: usize = self.allocated;
                    let allocated_idx: usize = cursor_index(allocated, self.one_lap);

                    if allocated_idx != committed_cnt {
                        return ConsumeResult::NotAvailable;
                    }
                }
                let prev: usize = fetch_max(&mut self.reserved, reserved + 1);
                if prev == reserved {
                    let data: Option<T> = self.slots[reserved_idx].take();
                    self.consumed = self.consumed + 1;
                    return ConsumeResult::Success(data.unwrap());
                }
            } else {
                return ConsumeResult::BlockDone;
            }
        }
    }
}

} // verus!

verus! {

/// A bounded, block-based FIFO ring buffer with `BLOCK_NUM` blocks of
/// `SLOT_NUM` slots each; both are powers of two and `BLOCK_NUM >= 2`.
///
/// Its mathematical view (`self@`) is the sequence of queued elements,
/// oldest first.
pub struct RingBuffer<T, const BLOCK_NUM: usize, const SLOT_NUM: usize> {
    head: usize,
    tail: usize,
    blocks: Vec<Block<T>>,
    one_lap: usize,
}

impl<T, const BLOCK_NUM: usize, const SLOT_NUM: usize> RingBuffer<T, BLOCK_NUM, SLOT_NUM> {
    /// The block count as an integer.
    spec fn bcount(&self) -> int {
        BLOCK_NUM as int
    }

    /// The slot count per block as an integer.
    spec fn scount(&self) -> int {
        SLOT_NUM as int
    }

    /// The packed-cursor lap constant as an integer.
    pub closed spec fn lap(&self) -> int {
        self.one_lap as int
    }

    /// The packed producer cursor as an integer.
    pub closed spec fn head_cursor(&self) -> int {
        self.head as int
    }

    /// The packed consumer cursor as an integer.
    pub closed spec fn tail_cursor(&self) -> int {
        self.tail as int
    }

    /// Total capacity as an integer.
    pub open spec fn capacity_spec(&self) -> int {
        BLOCK_NUM as int * SLOT_NUM as int
    }

    /// The lap the producer side is on.
    spec fn head_lap(&self) -> int {
        self.head as int / self.lap()
    }

    /// The block producers currently fill.
    spec fn head_block(&self) -> int {
        self.head as int % self.lap()
    }

    /// How many slots of the current head block are committed this lap.
    spec fn head_fill(&self) -> int {
        self.blocks@[self.head_block()].committed as int % self.lap()
    }

    /// The lap the consumer side is on.
    spec fn tail_lap(&self) -> int {
        self.tail as int / self.lap()
    }

    /// The block consumers currently drain.
    spec fn tail_block(&self) -> int {
        self.tail as int % self.lap()
    }

    /// How many slots of the current tail block are drained this lap.
    spec fn tail_drain(&self) -> int {
        self.blocks@[self.tail_block()].reserved as int % self.lap()
    }

    /// How many blocks producers have opened over all laps.
    spec fn produced_blocks(&self) -> int {
        self.head_lap() * self.bcount() + self.head_block()
    }

    /// How many blocks consumers have opened over all laps.
    spec fn consumed_blocks(&self) -> int {
        self.tail_lap() * self.bcount() + self.tail_block()
    }

    /// The number of elements ever pushed successfully.
    pub closed spec fn total_pushed(&self) -> int {
        self.produced_blocks() * self.scount() + self.head_fill()
    }

    /// The number of elements ever popped successfully.
    pub closed spec fn total_popped(&self) -> int {
        self.consumed_blocks() * self.scount() + self.tail_drain()
    }

    /// The lap version block `i`'s producer cursors carry: blocks the head
    /// has passed this lap are one lap ahead, block zero and the blocks
    /// ahead of the head still carry the head's own lap.
    spec fn prod_version(&self, i: int) -> int {
        self.head_lap() + if 1 <= i <= self.head_block() {
            1int
        } else {
            0int
        }
    }

    /// The index field block `i`'s producer cursors carry.
    spec fn prod_index(&self, i: int) -> int {
        if i == self.head_block() {
            self.head_fill()
        } else {
            self.scount()
        }
    }

    /// The lap version block `i`'s consumer cursors carry.
    spec fn cons_version(&self, i: int) -> int {
        self.tail_lap() + if 1 <= i <= self.tail_block() {
            1int
        } else {
            0int
        }
    }

    /// The index field block `i`'s consumer cursors carry.
    spec fn cons_index(&self, i: int) -> int {
        if i == self.tail_block() {
            self.tail_drain()
        } else {
            self.scount()
        }
    }

    /// Block `i`'s cursors agree with the global cursors: the sequential
    /// state is a function of how far producers and consumers have come.
    spec fn block_ok(&self, i: int) -> bool {
        let blk = self.blocks@[i];
        &&& blk.one_lap == self.one_lap
        &&& blk.slots@.len() == self.scount()
        &&& blk.allocated == blk.committed
        &&& blk.reserved == blk.consumed
        &&& blk.committed as int == self.prod_version(i) * self.lap() + self.prod_index(i)
        &&& blk.consumed as int == self.cons_version(i) * self.lap() + self.cons_index(i)
    }

    /// The ring's shape: sizes, the lap constant, and word-size bounds.
    spec fn wf_shape(&self) -> bool {
        &&& is_pow2(BLOCK_NUM)
        &&& is_pow2(SLOT_NUM)
        &&& BLOCK_NUM >= 2
        &&& is_pow2(self.one_lap)
        &&& self.lap() == if self.bcount() >= 2 * self.scount() {
            self.bcount()
        } else {
            2 * self.scount()
        }
        &&& self.capacity_spec() <= usize::MAX as int
        &&& self.blocks@.len() == self.bcount()
    }

    /// Cursor fields decompose cleanly and agree block by block.
    spec fn wf_cursors(&self) -> bool {
        &&& 0 <= self.head_block() < self.bcount()
        &&& 0 <= self.tail_block() < self.bcount()
        &&& 0 <= self.head_fill() <= self.scount()
        &&& 0 <= self.tail_drain() <= self.scount()
        &&& forall|i: int| 0 <= i < self.bcount() ==> self.block_ok(i)
    }

    /// The global counts: consumers never pass producers, producers never
    /// run more than the capacity ahead, and producers never open a block
    /// whose previous lap is not fully drained.
    spec fn wf_counts(&self) -> bool {
        &&& 0 <= self.total_popped()
        &&& self.total_popped() <= self.total_pushed()
        &&& self.total_pushed() <= self.total_popped() + self.capacity_spec()
        &&& self.total_popped() + self.capacity_spec() >= (self.produced_blocks() + 1)
            * self.scount()
        &&& self.consumed_blocks() <= self.produced_blocks()
    }

    /// The queue position that slot `(i, j)` will hold next: the first
    /// position at or after the consumer frontier that maps onto it.
    spec fn slot_position(&self, i: int, j: int) -> int {
        self.total_popped() + (i * self.scount() + j - self.total_popped()) % self.capacity_spec()
    }

    /// Slot `(i, j)` holds an element exactly when its position is already
    /// pushed but not yet popped.
    spec fn slot_ok(&self, i: int, j: int) -> bool {
        self.blocks@[i].slots@[j] is Some <==> self.slot_position(i, j) < self.total_pushed()
    }

    /// Every slot agrees with the element layout.
    spec fn wf_slots(&self) -> bool {
        forall|i: int, j: int|
            0 <= i < self.bcount() && 0 <= j < self.scount() ==> self.slot_ok(i, j)
    }

    /// The invariant the internal protocol steps maintain.
    spec fn wf_inner(&self) -> bool {
        &&& self.wf_shape()
        &&& self.wf_cursors()
        &&& self.wf_counts()
        &&& self.wf_slots()
    }

    /// Well-formed ring: the invariant of every ring the public operations
    /// hand out. Both frontiers advance lazily, so a block is only opened by
    /// the operation that first uses it.
    pub closed spec fn wf(&self) -> bool {
        &&& self.wf_inner()
        &&& (self.head_fill() == 0 ==> self.total_pushed() == 0)
        &&& (self.tail_drain() == 0 ==> self.total_popped() == 0)
    }

    /// The element stored for queue position `p`.
    spec fn elem_at(&self, p: int) -> T {
        self.blocks@[(p / self.scount()) % self.bcount()].slots@[p % self.scount()].unwrap()
    }
}

impl<T, const BLOCK_NUM: usize, const SLOT_NUM: usize> View for RingBuffer<T, BLOCK_NUM, SLOT_NUM> {
    type V = Seq<T>;

    /// The queued elements, oldest first.
    closed spec fn view(&self) -> Seq<T> {
        Seq::new((self.total_pushed() - self.total_popped()) as nat, |k: int| self.elem_at(self.total_popped() + k))
    }
}

} // verus!

verus! {

/// The cursor and slot state a block of a freshly built ring has: block
/// zero open and empty, every other block exhausted at lap zero.
spec fn initial_block_state<T>(blk: Block<T>, x: int, one_lap: usize, slot_num: int) -> bool {
    &&& blk.allocated == (if x == 0 {
        0int
    } else {
        slot_num
    })
    &&& blk.committed == blk.allocated
    &&& blk.reserved == blk.allocated
    &&& blk.consumed == blk.allocated
    &&& blk.one_lap == one_lap
    &&& blk.slots@.len() == slot_num
    &&& forall|j: int| 0 <= j < slot_num ==> blk.slots@[j] is None
}

impl<T, const BLOCK_NUM: usize, const SLOT_NUM: usize> RingBuffer<T, BLOCK_NUM, SLOT_NUM> {
    /// An empty ring. Block zero starts open for producers; every other
    /// block starts exhausted (index field at `SLOT_NUM`, lap zero), so
    /// producers must ask for an advance before entering it and consumers
    /// find it empty until producers have passed through.
    pub fn new() -> (ring: Self)
        requires
            is_pow2(BLOCK_NUM),
            is_pow2(SLOT_NUM),
            BLOCK_NUM >= 2,
            2 * SLOT_NUM as int <= usize::MAX as int,
            BLOCK_NUM as int * SLOT_NUM as int <= usize::MAX as int,
        ensures
            ring.wf(),
            ring@ == Seq::<T>::empty(),
            ring.total_pushed() == 0,
            ring.total_popped() == 0,
            ring.head_cursor() == 0,
            ring.tail_cursor() == 0,
            ring.lap() == (if BLOCK_NUM as int >= 2 * SLOT_NUM as int {
                BLOCK_NUM as int
            } else {
                2 * SLOT_NUM as int
            }),
    {
        proof {
            lemma_pow2_positive(BLOCK_NUM);
            lemma_pow2_positive(SLOT_NUM);
            lemma_pow2_double(SLOT_NUM);
        }
        let slot_double: usize = SLOT_NUM * 2;
        let one_lap: usize = if BLOCK_NUM >= slot_double {
            BLOCK_NUM
        } else {
            slot_double
        };
        let mut blocks: Vec<Block<T>> = Vec::new();
        let mut i: usize = 0;
        while i < BLOCK_NUM
            invariant
                i <= BLOCK_NUM,
                blocks@.len() == i,
                forall|x: int|
                    0 <= x < i ==> initial_block_state(blocks@[x], x, one_lap, SLOT_NUM as int),
            decreases BLOCK_NUM - i,
        {
            if i == 0 {
                blocks.push(Block::new(one_lap, 0, SLOT_NUM));
            } else {
                blocks.push(Block::new(one_lap, SLOT_NUM, SLOT_NUM));
            }
            i = i + 1;
        }
        let ring = RingBuffer { head: 0, tail: 0, blocks, one_lap };
        proof {
            ring.lemma_new_well_formed();
        }
        ring
    }

    /// The freshly built state satisfies the invariant with empty contents.
    proof fn lemma_new_well_formed(self)
        requires
            is_pow2(BLOCK_NUM),
            is_pow2(SLOT_NUM),
            BLOCK_NUM >= 2,
            is_pow2(self.one_lap),
            self.lap() == if self.bcount() >= 2 * self.scount() {
                self.bcount()
            } else {
                2 * self.scount()
            },
            self.capacity_spec() <= usize::MAX as int,
            self.head == 0,
            self.tail == 0,
            self.blocks@.len() == self.bcount(),
            forall|x: int|
                0 <= x < self.bcount() ==> initial_block_state(
                    self.blocks@[x],
                    x,
                    self.one_lap,
                    SLOT_NUM as int,
                ),
        ensures
            self.wf(),
            self@ == Seq::<T>::empty(),
            self.total_pushed() == 0,
            self.total_popped() == 0,
    {
        lemma_pow2_positive(BLOCK_NUM);
        lemma_pow2_positive(SLOT_NUM);
        lemma_pow2_positive(self.one_lap);
        let b = self.bcount();
        let s = self.scount();
        let l = self.lap();
        vstd::arithmetic::mul::lemma_mul_basics(b);
        vstd::arithmetic::mul::lemma_mul_basics(s);
        vstd::arithmetic::mul::lemma_mul_strictly_positive(b, s);
        vstd::arithmetic::mul::lemma_mul_inequality(1, b, s);
        assert(l >= 2 * s && l >= b);
        assert(self.head_lap() == 0 && self.head_block() == 0) by {
            assert(0int % l == 0 && 0int / l == 0);
        }
        assert(initial_block_state(self.blocks@[0], 0, self.one_lap, s));
        assert(self.blocks@[0].committed == 0);
        assert(self.head_fill() == 0) by {
            assert(0int % l == 0);
        }
        assert(self.tail_drain() == 0);
        assert(self.produced_blocks() == 0 && self.consumed_blocks() == 0);
        assert(self.total_pushed() == 0 && self.total_popped() == 0);
        assert forall|i: int| 0 <= i < b implies self.block_ok(i) by {
            assert(initial_block_state(self.blocks@[i], i, self.one_lap, s));
            assert(self.prod_version(i) == 0);
            assert(self.cons_version(i) == 0);
            vstd::arithmetic::mul::lemma_mul_basics(l);
            if i == 0 {
                assert(self.prod_index(i) == 0 && self.cons_index(i) == 0);
            } else {
                assert(self.prod_index(i) == s && self.cons_index(i) == s);
            }
        }
        assert(self.capacity_spec() >= 1 * s);
        assert(self.wf_counts());
        assert forall|i: int, j: int|
            0 <= i < b && 0 <= j < s implies self.slot_ok(i, j) by {
            let cap = self.capacity_spec();
            vstd::arithmetic::div_mod::lemma_mod_bound(i * s + j, cap);
            assert(!(self.slot_position(i, j) < self.total_pushed()));
            assert(initial_block_state(self.blocks@[i], i, self.one_lap, s));
            assert(self.blocks@[i].slots@[j] is None);
        }
        assert(self@ =~= Seq::<T>::empty());
    }
}

} // verus!

verus! {

/// Flat block numbers `v*b + k` with `0 <= k < b` compare lexicographically.
proof fn lemma_lex(v1: int, k1: int, v2: int, k2: int, b: int)
    by (nonlinear_arith)
    requires
        b >= 1,
        0 <= k1 < b,
        0 <= k2 < b,
    ensures
        (v1 * b + k1 > v2 * b + k2) <==> (v1 > v2 || (v1 == v2 && k1 > k2)),
        (v1 * b + k1 == v2 * b + k2) <==> (v1 == v2 && k1 == k2),
{
}

/// A packed word `v*l + r` with `0 <= r < l` splits back into `v` and `r`.
proof fn lemma_pack(v: int, r: int, l: int)
    requires
        l >= 1,
        0 <= r < l,
    ensures
        (v * l + r) % l == r,
        (v * l + r) / l == v,
{
    vstd::arithmetic::div_mod::lemma_fundamental_div_mod_converse(v * l + r, l, v, r);
}

impl<T, const BLOCK_NUM: usize, const SLOT_NUM: usize> RingBuffer<T, BLOCK_NUM, SLOT_NUM> {
    /// The block after `i` in ring order.
    spec fn next_block(&self, i: int) -> int {
        if i + 1 < self.bcount() {
            i + 1
        } else {
            0int
        }
    }

    /// Basic consequences of the invariant used throughout: the packed
    /// cursors decompose, laps are non-negative, and the consumer frontier
    /// trails the producer frontier.
    proof fn lemma_frontiers(self)
        requires
            self.wf_inner(),
        ensures
            self.lap() >= 2 * self.scount(),
            self.lap() >= self.bcount(),
            self.scount() >= 1,
            self.bcount() >= 2,
            self.head_lap() * self.lap() + self.head_block() == self.head as int,
            self.tail_lap() * self.lap() + self.tail_block() == self.tail as int,
            self.head_lap() >= 0,
            self.tail_lap() <= self.head_lap(),
            self.tail_lap() >= 0,
            self.head_lap() * self.lap() <= self.head as int,
            self.capacity_spec() == self.bcount() * self.scount(),
    {
        let b = self.bcount();
        let s = self.scount();
        let l = self.lap();
        lemma_pow2_positive(SLOT_NUM);
        lemma_pow2_positive(BLOCK_NUM);
        vstd::arithmetic::div_mod::lemma_fundamental_div_mod(self.head as int, l);
        vstd::arithmetic::div_mod::lemma_fundamental_div_mod(self.tail as int, l);
        let hv = self.head_lap();
        let hb = self.head_block();
        let tv = self.tail_lap();
        let tb = self.tail_block();
        assert(hv >= 0) by (nonlinear_arith)
            requires
                hv * l + hb == self.head as int,
                self.head as int >= 0,
                0 <= hb < l,
                l >= 1,
        ;
        assert(tv >= 0) by (nonlinear_arith)
            requires
                tv * l + tb == self.tail as int,
                self.tail as int >= 0,
                0 <= tb < l,
                l >= 1,
        ;
        assert(tv <= hv) by (nonlinear_arith)
            requires
                tv * b + tb <= hv * b + hb,
                0 <= tb < b,
                0 <= hb < b,
                b >= 1,
        ;
        assert(hv * l <= self.head as int) by (nonlinear_arith)
            requires
                hv * l + hb == self.head as int,
                hb >= 0,
        ;
    }

    /// The producer's drained test on the next block reads its packed
    /// consumer cursor; it passes exactly when consumers have fully drained
    /// the lap that producers are about to overwrite, that is, when at least
    /// one block's worth of room lies between the two frontiers.
    proof fn lemma_advance_head_test(self)
        requires
            self.wf(),
            self.head_fill() == self.scount(),
        ensures
            ({
                let nb = self.next_block(self.head_block());
                (self.cons_version(nb) > self.head_lap() || (self.cons_version(nb)
                    == self.head_lap() && self.cons_index(nb) == self.scount()))
                    <==> self.total_popped() + self.capacity_spec() >= self.total_pushed()
                    + self.scount()
            }),
    {
        let b = self.bcount();
        let s = self.scount();
        let hv = self.head_lap();
        let hb = self.head_block();
        let tv = self.tail_lap();
        let tb = self.tail_block();
        let ci = self.tail_drain();
        let qp = self.produced_blocks();
        let qc = self.consumed_blocks();
        let np = self.total_pushed();
        let nc = self.total_popped();
        let cap = self.capacity_spec();
        let nb = self.next_block(hb);
        self.lemma_frontiers();
        // the count side, rewritten over flat block numbers
        assert(nc + cap == (qc + b) * s + ci) by (nonlinear_arith)
            requires
                nc == qc * s + ci,
                cap == b * s,
        ;
        assert(np + s == (qp + 2) * s) by (nonlinear_arith)
            requires
                np == qp * s + s,
        ;
        let room = (nc + cap >= np + s);
        assert(room <==> (qc + b) * s + ci >= (qp + 2) * s);
        assert((qc + b) * s + ci >= (qp + 2) * s <==> (qc + b > qp + 1 || (qc + b == qp + 1
            && ci == s))) by (nonlinear_arith)
            requires
                s >= 1,
                0 <= ci <= s,
        ;
        // the cursor side, case by case
        let dlt = if 1 <= nb <= tb {
            1int
        } else {
            0int
        };
        assert(self.cons_version(nb) == tv + dlt);
        if hb + 1 < b {
            // flat comparisons against `qp + 1 = hv*b + (hb+1)`
            assert(qc + b == (tv + 1) * b + tb) by (nonlinear_arith)
                requires
                    qc == tv * b + tb,
            ;
            lemma_lex(tv + 1, tb, hv, hb + 1, b);
            assert(qc + b > qp + 1 <==> (tv + 1 > hv || (tv + 1 == hv && tb > hb + 1)));
            assert(qc + b == qp + 1 <==> (tv + 1 == hv && tb == hb + 1));
            lemma_lex(tv, tb, hv, hb, b);
            if tv == hv {
                // same lap: the consumer sits at or behind the head block,
                // so the next block still shows the drained previous lap
                assert(tb <= hb);
                assert(nb != tb && !(1 <= nb <= tb));
                assert(self.cons_index(nb) == s && self.cons_version(nb) == hv);
                assert(qc + b > qp + 1) by (nonlinear_arith)
                    requires
                        qc == tv * b + tb,
                        qp == hv * b + hb,
                        tv == hv,
                        tb >= 0,
                        hb + 1 < b,
                ;
            } else {
                assert(tv < hv);
                if tv == hv - 1 {
                    assert(tv + 1 == hv);
                    assert(qc + b > qp + 1 <==> tb > hb + 1);
                    assert(qc + b == qp + 1 <==> tb == hb + 1);
                    if tb > hb + 1 {
                        assert(1 <= nb <= tb && nb != tb);
                        assert(self.cons_version(nb) == hv && self.cons_index(nb) == s);
                    } else if tb == hb + 1 {
                        assert(1 <= nb <= tb && nb == tb);
                        assert(self.cons_version(nb) == hv && self.cons_index(nb) == ci);
                    } else {
                        assert(!(1 <= nb <= tb));
                        assert(self.cons_version(nb) == hv - 1);
                    }
                } else {
                    // two or more laps behind: no room, and the next block
                    // still carries an old consumer version
                    assert(tv + 1 < hv);
                    assert(self.cons_version(nb) <= tv + 1);
                    assert(!(qc + b > qp + 1) && !(qc + b == qp + 1));
                }
            }
        } else {
            // the head wraps: the next block is block zero and the flat
            // comparison is against `(hv+1)*b`
            assert(hb == b - 1 && nb == 0);
            assert(dlt == 0 && self.cons_version(0) == tv);
            assert(qc + b == (tv + 1) * b + tb) by (nonlinear_arith)
                requires
                    qc == tv * b + tb,
            ;
            assert(qp + 1 == (hv + 1) * b + 0) by (nonlinear_arith)
                requires
                    qp == hv * b + (b - 1),
            ;
            lemma_lex(tv + 1, tb, hv + 1, 0, b);
            assert(qc + b > qp + 1 <==> (tv == hv && tb > 0));
            assert(qc + b == qp + 1 <==> (tv == hv && tb == 0));
            if tv == hv {
                if tb == 0 {
                    assert(self.cons_index(0) == ci);
                } else {
                    assert(self.cons_index(0) == s);
                }
            }
        }
    }
}

} // verus!

verus! {

impl<T, const BLOCK_NUM: usize, const SLOT_NUM: usize> RingBuffer<T, BLOCK_NUM, SLOT_NUM> {
    /// Move the producer frontier onto the next block. Succeeds exactly when
    /// consumers have fully drained that block's previous lap, which under
    /// the invariant means at least one block of room separates the
    /// frontiers; then the next block is reopened at the new lap and `head`
    /// is bumped. Fails with `NoEntry`, leaving the ring untouched, when the
    /// ring is full at block granularity.
    fn advance_head(&mut self, old_head: usize) -> (r: AdvanceHeadResult)
        requires
            old(self).wf(),
            old_head == old(self).head,
            old(self).head_fill() == old(self).scount(),
            old(self).head as int + 2 * old(self).one_lap as int <= usize::MAX as int,
        ensures
            final(self).wf_inner(),
            final(self).tail == old(self).tail,
            final(self).tail_drain() == old(self).tail_drain(),
            final(self).total_pushed() == old(self).total_pushed(),
            final(self).total_popped() == old(self).total_popped(),
            final(self)@ == old(self)@,
            old(self).head <= final(self).head,
            final(self).head as int <= old(self).head as int + old(self).one_lap as int,
            ({
                if old(self).total_popped() + old(self).capacity_spec() >= old(
                    self,
                ).total_pushed() + old(self).scount() {
                    &&& r is Success
                    &&& final(self).head_fill() == 0
                    &&& final(self).produced_blocks() == old(self).produced_blocks() + 1
                } else {
                    &&& r is NoEntry
                    &&& *final(self) == *old(self)
                }
            }),
    {
        let ghost b = old(self).bcount();
        let ghost s = old(self).scount();
        let ghost l = old(self).lap();
        let ghost hv = old(self).head_lap();
        let ghost hb = old(self).head_block();
        let ghost nbg = old(self).next_block(hb);
        proof {
            old(self).lemma_frontiers();
            old(self).lemma_advance_head_test();
            assert(old(self).block_ok(nbg));
        }
        let one_lap: usize = self.one_lap;
        let old_blk_idx: usize = cursor_index(old_head, one_lap);
        let old_head_vsn: usize = cursor_version(old_head, one_lap);
        let next_idx: usize = (old_blk_idx + 1) % BLOCK_NUM;
        proof {
            assert(old_blk_idx == hb && old_head_vsn == hv * l);
            if hb + 1 < b {
                vstd::arithmetic::div_mod::lemma_small_mod((hb + 1) as nat, BLOCK_NUM as nat);
            } else {
                vstd::arithmetic::div_mod::lemma_mod_multiples_vanish(1, 0, b);
                vstd::arithmetic::div_mod::lemma_small_mod(0nat, BLOCK_NUM as nat);
            }
            assert(next_idx == nbg);
        }
        let next_consumed: usize = self.blocks[next_idx].consumed;
        let consumed_cnt: usize = cursor_index(next_consumed, one_lap);
        let consumed_vsn: usize = cursor_version(next_consumed, one_lap);
        let ghost cvsn = old(self).cons_version(nbg);
        let ghost cidx = old(self).cons_index(nbg);
        proof {
            lemma_pack(cvsn, cidx, l);
            assert(cidx < l);
            assert(consumed_cnt == cidx && consumed_vsn == cvsn * l);
            assert((cvsn * l < hv * l <==> cvsn < hv) && (cvsn * l == hv * l <==> cvsn
                == hv)) by (nonlinear_arith)
                requires
                    l >= 1,
            ;
        }
        if consumed_vsn < old_head_vsn || (consumed_vsn == old_head_vsn && consumed_cnt
            != SLOT_NUM) {
            // the next block is not fully drained for this lap: the ring is
            // full from the producer's point of view
            let next_reserved: usize = self.blocks[next_idx].reserved;
            let reserved_idx: usize = cursor_index(next_reserved, one_lap);
            if reserved_idx == consumed_cnt {
                return AdvanceHeadResult::NoEntry;
            } else {
                // consumers park `reserved` and `consumed` together between
                // operations, so this arm is never taken here
                return AdvanceHeadResult::NotAvailable;
            }
        }
        // reopen the next block for the new producer lap
        let new_vsn: usize = old_head_vsn + one_lap;
        proof {
            assert(old(self).prod_version(nbg) == hv && old(self).prod_index(nbg) == s);
            assert(hv * l + s < new_vsn);
        }
        fetch_max(&mut self.blocks[next_idx].committed, new_vsn);
        fetch_max(&mut self.blocks[next_idx].allocated, new_vsn);
        let new_head: usize = if old_blk_idx + 1 < BLOCK_NUM {
            // same lap, next block
            old_head + 1
        } else {
            // the lap wraps: index resets to zero, version advances
            new_vsn
        };
        fetch_max(&mut self.head, new_head);
        proof {
            let new_cursor = (hv + 1) * l;
            assert((hv + 1) * l == hv * l + l) by (nonlinear_arith);
            assert(new_vsn as int == new_cursor);
            assert(self.blocks@[nbg].allocated as int == new_cursor);
            assert(self.blocks@[nbg].committed as int == new_cursor);
            assert(self.blocks@[nbg].reserved == old(self).blocks@[nbg].reserved);
            assert(self.blocks@[nbg].slots@ == old(self).blocks@[nbg].slots@);
            assert(forall|i: int|
                0 <= i < old(self).blocks@.len() && i != nbg ==> self.blocks@[i] == old(
                    self,
                ).blocks@[i]);
            assert(self.head as int == (if hb + 1 < b {
                old(self).head as int + 1
            } else {
                new_cursor
            }));
            self.lemma_after_advance_head(*old(self));
        }
        AdvanceHeadResult::Success
    }

    /// After a successful head advance the invariant holds again with the
    /// same contents: only the head coordinates moved, one block on.
    proof fn lemma_after_advance_head(self, prev: Self)
        requires
            prev.wf(),
            prev.head_fill() == prev.scount(),
            prev.total_popped() + prev.capacity_spec() >= prev.total_pushed() + prev.scount(),
            prev.head as int + 2 * prev.lap() <= usize::MAX as int,
            self.tail == prev.tail,
            self.one_lap == prev.one_lap,
            self.blocks@.len() == prev.blocks@.len(),
            ({
                let nb = prev.next_block(prev.head_block());
                let new_cursor = (prev.head_lap() + 1) * prev.lap();
                &&& forall|i: int|
                    0 <= i < prev.blocks@.len() && i != nb ==> self.blocks@[i] == prev.blocks@[i]
                &&& self.blocks@[nb].allocated as int == new_cursor
                &&& self.blocks@[nb].committed as int == new_cursor
                &&& self.blocks@[nb].reserved == prev.blocks@[nb].reserved
                &&& self.blocks@[nb].consumed == prev.blocks@[nb].consumed
                &&& self.blocks@[nb].slots@ == prev.blocks@[nb].slots@
                &&& self.blocks@[nb].one_lap == prev.blocks@[nb].one_lap
                &&& self.head as int == (if prev.head_block() + 1 < prev.bcount() {
                    prev.head as int + 1
                } else {
                    new_cursor
                })
            }),
        ensures
            self.wf_inner(),
            self.tail_drain() == prev.tail_drain(),
            self.total_pushed() == prev.total_pushed(),
            self.total_popped() == prev.total_popped(),
            self@ == prev@,
            self.head_fill() == 0,
            self.produced_blocks() == prev.produced_blocks() + 1,
            prev.head <= self.head,
            self.head as int <= prev.head as int + prev.lap(),
    {
        let b = prev.bcount();
        let s = prev.scount();
        let l = prev.lap();
        let hv = prev.head_lap();
        let hb = prev.head_block();
        let nb = prev.next_block(hb);
        prev.lemma_frontiers();
        assert(prev.block_ok(nb) && prev.block_ok(hb));
        assert((hv + 1) * l == hv * l + l) by (nonlinear_arith);
        assert((hv + 1) * l <= usize::MAX as int);
        // decompose the new head
        if hb + 1 < b {
            lemma_pack(hv, hb + 1, l);
            assert(self.head as int == hv * l + (hb + 1));
            assert(self.head_lap() == hv && self.head_block() == hb + 1);
        } else {
            lemma_pack(hv + 1, 0, l);
            assert(self.head_lap() == hv + 1 && self.head_block() == 0);
        }
        assert(self.head_block() == nb);
        // the reopened block's cursors
        lemma_pack(hv + 1, 0, l);
        assert(self.blocks@[nb].committed as int == (hv + 1) * l);
        assert(self.head_fill() == 0);
        // flat producer position moves one block on, the count stays
        assert(self.produced_blocks() == prev.produced_blocks() + 1) by (nonlinear_arith)
            requires
                self.head_lap() * b + self.head_block() == prev.head_lap() * b
                    + prev.head_block() + 1 || (self.head_lap() == prev.head_lap() + 1
                    && self.head_block() == 0 && prev.head_block() == b - 1),
                self.produced_blocks() == self.head_lap() * b + self.head_block(),
                prev.produced_blocks() == prev.head_lap() * b + prev.head_block(),
        ;
        assert(self.total_pushed() == prev.total_pushed()) by (nonlinear_arith)
            requires
                self.total_pushed() == self.produced_blocks() * s + 0,
                prev.total_pushed() == prev.produced_blocks() * s + s,
                self.produced_blocks() == prev.produced_blocks() + 1,
        ;
        // the consumer side is untouched
        assert(self.tail_lap() == prev.tail_lap() && self.tail_block() == prev.tail_block());
        assert(self.blocks@[prev.tail_block()].reserved == prev.blocks@[prev.tail_block()].reserved);
        assert(self.tail_drain() == prev.tail_drain());
        assert(self.total_popped() == prev.total_popped());
        // every block still agrees with the formulas
        assert forall|i: int| 0 <= i < b implies self.block_ok(i) by {
            assert(prev.block_ok(i));
            if i == nb {
                assert(self.prod_version(i) == hv + 1 && self.prod_index(i) == 0);
            } else {
                assert(self.blocks@[i] == prev.blocks@[i]);
                assert(self.prod_version(i) == prev.prod_version(i));
                assert(self.prod_index(i) == prev.prod_index(i));
            }
            assert(self.cons_version(i) == prev.cons_version(i));
            assert(self.cons_index(i) == prev.cons_index(i));
        }
        // counts: the freshly opened block's previous lap was just checked
        assert((prev.produced_blocks() + 2) * s == prev.produced_blocks() * s + 2
            * s) by (nonlinear_arith);
        assert(self.wf_counts());
        // slots and contents are untouched
        assert forall|i: int, j: int|
            0 <= i < b && 0 <= j < s implies self.slot_ok(i, j) by {
            assert(prev.slot_ok(i, j));
            assert(self.blocks@[i].slots@ == prev.blocks@[i].slots@);
            assert(self.slot_position(i, j) == prev.slot_position(i, j));
        }
        assert forall|p: int|
            prev.total_popped() <= p < prev.total_pushed() implies self.elem_at(p) == prev.elem_at(
            p,
        ) by {
            assert(self.blocks@[(p / s) % b].slots@ == prev.blocks@[(p / s) % b].slots@);
        }
        assert(self@ =~= prev@);
    }
}

} // verus!

verus! {

impl<T, const BLOCK_NUM: usize, const SLOT_NUM: usize> RingBuffer<T, BLOCK_NUM, SLOT_NUM> {
    /// With its current block drained, the consumer is strictly behind the
    /// producer exactly when the producer has already opened the next block,
    /// which shows as a committed version one lap up.
    proof fn lemma_advance_tail_test(self)
        requires
            self.wf(),
            self.tail_drain() == self.scount(),
        ensures
            ({
                let nt = self.next_block(self.tail_block());
                (self.prod_version(nt) == self.tail_lap() + 1) <==> self.total_pushed()
                    > self.total_popped()
            }),
    {
        let b = self.bcount();
        let s = self.scount();
        let hv = self.head_lap();
        let hb = self.head_block();
        let tv = self.tail_lap();
        let tb = self.tail_block();
        let pi = self.head_fill();
        let qp = self.produced_blocks();
        let qc = self.consumed_blocks();
        let np = self.total_pushed();
        let nc = self.total_popped();
        let cap = self.capacity_spec();
        let nt = self.next_block(tb);
        self.lemma_frontiers();
        // the count side: one block drained means the consumer count sits on
        // a block boundary, so being behind at all means being a block on
        assert(nc == (qc + 1) * s) by (nonlinear_arith)
            requires
                nc == qc * s + s,
        ;
        assert(nc >= 1 * s) by (nonlinear_arith)
            requires
                nc == (qc + 1) * s,
                qc >= 0,
                s >= 1,
        ;
        if self.head_fill() == 0 {
            // a producer at fill zero has never pushed, but something was
            // drained here: impossible
            assert(np == 0 && nc <= np);
            assert(false);
        }
        assert((np > nc) <==> (qp >= qc + 1)) by (nonlinear_arith)
            requires
                np == qp * s + pi,
                nc == (qc + 1) * s,
                1 <= pi <= s,
                qc <= qp,
                s >= 1,
        ;
        // a producer two or more laps ahead would overfill the ring
        if hv >= tv + 2 {
            assert(qp - qc - 1 >= b) by (nonlinear_arith)
                requires
                    qp == hv * b + hb,
                    qc == tv * b + tb,
                    hv >= tv + 2,
                    0 <= tb < b,
                    0 <= hb < b,
                    b >= 1,
            ;
            assert(np - nc > cap) by (nonlinear_arith)
                requires
                    np == qp * s + pi,
                    nc == (qc + 1) * s,
                    qp - qc - 1 >= b,
                    cap == b * s,
                    1 <= pi <= s,
                    s >= 1,
            ;
            assert(false);
        }
        if tb + 1 < b {
            assert(nt == tb + 1);
            lemma_lex(hv, hb, tv, tb, b);
            if hv == tv {
                assert((qp >= qc + 1) <==> (hb >= tb + 1)) by (nonlinear_arith)
                    requires
                        qp == hv * b + hb,
                        qc == tv * b + tb,
                        hv == tv,
                ;
                assert(self.prod_version(nt) == hv + (if 1 <= nt <= hb {
                    1int
                } else {
                    0int
                }));
            } else {
                assert(hv == tv + 1);
                // a producer a lap ahead but at or before the drained block
                // boundary would again overfill
                if hb > tb {
                    assert(qp - qc - 1 >= b) by (nonlinear_arith)
                        requires
                            qp == hv * b + hb,
                            qc == tv * b + tb,
                            hv == tv + 1,
                            hb > tb,
                            b >= 1,
                    ;
                    assert(np - nc > cap) by (nonlinear_arith)
                        requires
                            np == qp * s + pi,
                            nc == (qc + 1) * s,
                            qp - qc - 1 >= b,
                            cap == b * s,
                            1 <= pi <= s,
                            s >= 1,
                    ;
                    assert(false);
                }
                assert(hb <= tb && !(nt <= hb) || hb > tb);
                assert(self.prod_version(nt) == hv);
                assert(qp >= qc + 1) by (nonlinear_arith)
                    requires
                        qp == hv * b + hb,
                        qc == tv * b + tb,
                        hv == tv + 1,
                        0 <= hb,
                        tb < b,
                ;
            }
        } else {
            assert(tb == b - 1 && nt == 0);
            assert(self.prod_version(0) == hv);
            if hv == tv {
                assert(!(qp >= qc + 1)) by (nonlinear_arith)
                    requires
                        qp == hv * b + hb,
                        qc == tv * b + tb,
                        hv == tv,
                        hb < b,
                        tb == b - 1,
                ;
            } else {
                assert(hv == tv + 1);
                assert(qp >= qc + 1) by (nonlinear_arith)
                    requires
                        qp == hv * b + hb,
                        qc == tv * b + tb,
                        hv == tv + 1,
                        0 <= hb,
                        tb == b - 1,
                ;
            }
        }
    }

    /// After a successful tail advance the invariant holds again with the
    /// same contents: only the tail coordinates moved, one block on.
    proof fn lemma_after_advance_tail(self, prev: Self)
        requires
            prev.wf(),
            prev.tail_drain() == prev.scount(),
            prev.total_pushed() > prev.total_popped(),
            prev.tail as int + 2 * prev.lap() <= usize::MAX as int,
            self.head == prev.head,
            self.one_lap == prev.one_lap,
            self.blocks@.len() == prev.blocks@.len(),
            ({
                let nt = prev.next_block(prev.tail_block());
                let new_cursor = (prev.tail_lap() + 1) * prev.lap();
                &&& forall|i: int|
                    0 <= i < prev.blocks@.len() && i != nt ==> self.blocks@[i] == prev.blocks@[i]
                &&& self.blocks@[nt].reserved as int == new_cursor
                &&& self.blocks@[nt].consumed as int == new_cursor
                &&& self.blocks@[nt].allocated == prev.blocks@[nt].allocated
                &&& self.blocks@[nt].committed == prev.blocks@[nt].committed
                &&& self.blocks@[nt].slots@ == prev.blocks@[nt].slots@
                &&& self.blocks@[nt].one_lap == prev.blocks@[nt].one_lap
                &&& self.tail as int == (if prev.tail_block() + 1 < prev.bcount() {
                    prev.tail as int + 1
                } else {
                    new_cursor
                })
            }),
        ensures
            self.wf_inner(),
            self.head_fill() == prev.head_fill(),
            self.total_pushed() == prev.total_pushed(),
            self.total_popped() == prev.total_popped(),
            self@ == prev@,
            self.tail_drain() == 0,
            self.consumed_blocks() == prev.consumed_blocks() + 1,
            prev.tail <= self.tail,
            self.tail as int <= prev.tail as int + prev.lap(),
    {
        let b = prev.bcount();
        let s = prev.scount();
        let l = prev.lap();
        let tv = prev.tail_lap();
        let tb = prev.tail_block();
        let nt = prev.next_block(tb);
        prev.lemma_frontiers();
        prev.lemma_advance_tail_test();
        assert(prev.block_ok(nt) && prev.block_ok(tb));
        assert((tv + 1) * l == tv * l + l) by (nonlinear_arith);
        assert((tv + 1) * l <= usize::MAX as int);
        // decompose the new tail
        if tb + 1 < b {
            lemma_pack(tv, tb + 1, l);
            assert(self.tail as int == tv * l + (tb + 1));
            assert(self.tail_lap() == tv && self.tail_block() == tb + 1);
        } else {
            lemma_pack(tv + 1, 0, l);
            assert(self.tail_lap() == tv + 1 && self.tail_block() == 0);
        }
        assert(self.tail_block() == nt);
        // the reopened block's consumer cursors
        lemma_pack(tv + 1, 0, l);
        assert(self.blocks@[nt].reserved as int == (tv + 1) * l);
        assert(self.tail_drain() == 0);
        // flat consumer position moves one block on, the count stays
        assert(self.consumed_blocks() == prev.consumed_blocks() + 1) by (nonlinear_arith)
            requires
                self.tail_lap() * b + self.tail_block() == prev.tail_lap() * b
                    + prev.tail_block() + 1 || (self.tail_lap() == prev.tail_lap() + 1
                    && self.tail_block() == 0 && prev.tail_block() == b - 1),
                self.consumed_blocks() == self.tail_lap() * b + self.tail_block(),
                prev.consumed_blocks() == prev.tail_lap() * b + prev.tail_block(),
        ;
        assert(self.total_popped() == prev.total_popped()) by (nonlinear_arith)
            requires
                self.total_popped() == self.consumed_blocks() * s + 0,
                prev.total_popped() == prev.consumed_blocks() * s + s,
                self.consumed_blocks() == prev.consumed_blocks() + 1,
        ;
        // the producer side is untouched
        assert(self.head_lap() == prev.head_lap() && self.head_block() == prev.head_block());
        assert(self.blocks@[prev.head_block()].committed == prev.blocks@[prev.head_block()].committed);
        assert(self.head_fill() == prev.head_fill());
        assert(self.total_pushed() == prev.total_pushed());
        // every block still agrees with the formulas
        assert forall|i: int| 0 <= i < b implies self.block_ok(i) by {
            assert(prev.block_ok(i));
            if i == nt {
                assert(self.cons_version(i) == tv + 1 && self.cons_index(i) == 0);
            } else {
                assert(self.blocks@[i] == prev.blocks@[i]);
                assert(self.cons_version(i) == prev.cons_version(i));
                assert(self.cons_index(i) == prev.cons_index(i));
            }
            assert(self.prod_version(i) == prev.prod_version(i));
            assert(self.prod_index(i) == prev.prod_index(i));
        }
        // counts: success implied the producer is at least one block ahead
        assert(self.consumed_blocks() <= self.produced_blocks());
        assert(self.wf_counts());
        // slots and contents are untouched
        assert forall|i: int, j: int|
            0 <= i < b && 0 <= j < s implies self.slot_ok(i, j) by {
            assert(prev.slot_ok(i, j));
            assert(self.blocks@[i].slots@ == prev.blocks@[i].slots@);
            assert(self.slot_position(i, j) == prev.slot_position(i, j));
        }
        assert forall|p: int|
            prev.total_popped() <= p < prev.total_pushed() implies self.elem_at(p) == prev.elem_at(
            p,
        ) by {
            assert(self.blocks@[(p / s) % b].slots@ == prev.blocks@[(p / s) % b].slots@);
        }
        assert(self@ =~= prev@);
    }

    /// Move the consumer frontier onto the next block. Succeeds exactly when
    /// producers have already filled into that block's matching lap, that
    /// is, when the ring holds at least one element; then the next block's
    /// consumer cursors reopen at the new lap and `tail` is bumped. Fails
    /// with `NoEntry`, leaving the ring untouched, when the ring is empty.
    fn advance_tail(&mut self, old_tail: usize) -> (r: AdvanceTailResult)
        requires
            old(self).wf(),
            old_tail == old(self).tail,
            old(self).tail_drain() == old(self).scount(),
            old(self).tail as int + 2 * old(self).one_lap as int <= usize::MAX as int,
        ensures
            final(self).wf_inner(),
            final(self).head == old(self).head,
            final(self).head_fill() == old(self).head_fill(),
            final(self).total_pushed() == old(self).total_pushed(),
            final(self).total_popped() == old(self).total_popped(),
            final(self)@ == old(self)@,
            old(self).tail <= final(self).tail,
            final(self).tail as int <= old(self).tail as int + old(self).one_lap as int,
            ({
                if old(self).total_pushed() > old(self).total_popped() {
                    &&& r is Success
                    &&& final(self).tail_drain() == 0
                    &&& final(self).consumed_blocks() == old(self).consumed_blocks() + 1
                } else {
                    &&& r is NoEntry
                    &&& *final(self) == *old(self)
                }
            }),
    {
        let ghost b = old(self).bcount();
        let ghost s = old(self).scount();
        let ghost l = old(self).lap();
        let ghost tv = old(self).tail_lap();
        let ghost tb = old(self).tail_block();
        let ghost ntg = old(self).next_block(tb);
        proof {
            old(self).lemma_frontiers();
            old(self).lemma_advance_tail_test();
            assert(old(self).block_ok(ntg));
        }
        let one_lap: usize = self.one_lap;
        let old_blk_idx: usize = cursor_index(old_tail, one_lap);
        let old_tail_vsn: usize = cursor_version(old_tail, one_lap);
        let next_idx: usize = (old_blk_idx + 1) % BLOCK_NUM;
        proof {
            assert(old_blk_idx == tb && old_tail_vsn == tv * l);
            if tb + 1 < b {
                vstd::arithmetic::div_mod::lemma_small_mod((tb + 1) as nat, BLOCK_NUM as nat);
            } else {
                vstd::arithmetic::div_mod::lemma_mod_multiples_vanish(1, 0, b);
                vstd::arithmetic::div_mod::lemma_small_mod(0nat, BLOCK_NUM as nat);
            }
            assert(next_idx == ntg);
        }
        let next_committed: usize = self.blocks[next_idx].committed;
        let committed_vsn: usize = cursor_version(next_committed, one_lap);
        let ghost pvsn = old(self).prod_version(ntg);
        let ghost pidx = old(self).prod_index(ntg);
        let new_vsn: usize = old_tail_vsn + one_lap;
        proof {
            lemma_pack(pvsn, pidx, l);
            assert(pidx < l);
            assert(committed_vsn == pvsn * l);
            assert((tv + 1) * l == tv * l + l) by (nonlinear_arith);
            assert(new_vsn as int == (tv + 1) * l);
            assert((pvsn * l == (tv + 1) * l <==> pvsn == tv + 1)) by (nonlinear_arith)
                requires
                    l >= 1,
            ;
        }
        if committed_vsn != new_vsn {
            // producers have not reached the next block's lap: empty here
            return AdvanceTailResult::NoEntry;
        }
        // reopen the next block for the new consumer lap
        proof {
            assert(old(self).cons_version(ntg) == tv && old(self).cons_index(ntg) == s);
            assert(tv * l + s < new_vsn);
        }
        fetch_max(&mut self.blocks[next_idx].consumed, new_vsn);
        fetch_max(&mut self.blocks[next_idx].reserved, new_vsn);
        let new_tail: usize = if old_blk_idx + 1 < BLOCK_NUM {
            // same lap, next block
            old_tail + 1
        } else {
            // the lap wraps: index resets to zero, version advances
            new_vsn
        };
        fetch_max(&mut self.tail, new_tail);
        proof {
            assert(self.blocks@[ntg].reserved as int == (tv + 1) * l);
            assert(self.blocks@[ntg].consumed as int == (tv + 1) * l);
            assert(self.blocks@[ntg].allocated == old(self).blocks@[ntg].allocated);
            assert(self.blocks@[ntg].slots@ == old(self).blocks@[ntg].slots@);
            assert(forall|i: int|
                0 <= i < old(self).blocks@.len() && i != ntg ==> self.blocks@[i] == old(
                    self,
                ).blocks@[i]);
            assert(self.tail as int == (if tb + 1 < b {
                old(self).tail as int + 1
            } else {
                (tv + 1) * l
            }));
            self.lemma_after_advance_tail(*old(self));
        }
        AdvanceTailResult::Success
    }
}

} // verus!

verus! {

/// A non-negative position `p` lands in block `(p/s) % b`, slot `p % s`,
/// and its remainder modulo one capacity `b*s` is exactly that flat slot.
proof fn lemma_position_slot(p: int, b: int, s: int)
    requires
        p >= 0,
        b >= 1,
        s >= 1,
    ensures
        ({
            let i = (p / s) % b;
            let j = p % s;
            0 <= i < b && 0 <= j < s && p % (b * s) == i * s + j
        }),
{
    let i = (p / s) % b;
    let j = p % s;
    vstd::arithmetic::div_mod::lemma_fundamental_div_mod(p, s);
    vstd::arithmetic::div_mod::lemma_fundamental_div_mod(p / s, b);
    let w = (p / s) / b;
    assert(p / s >= 0) by (nonlinear_arith)
        requires
            p >= 0,
            s >= 1,
            p == s * (p / s) + p % s,
            0 <= p % s < s,
    ;
    assert(w >= 0) by (nonlinear_arith)
        requires
            p / s >= 0,
            b >= 1,
            p / s == b * w + (p / s) % b,
            0 <= (p / s) % b < b,
    ;
    assert(p == w * (b * s) + (i * s + j)) by (nonlinear_arith)
        requires
            p == s * (p / s) + j,
            p / s == b * w + i,
    ;
    assert(0 <= i * s + j < b * s) by (nonlinear_arith)
        requires
            0 <= i < b,
            0 <= j < s,
            s >= 1,
    ;
    vstd::arithmetic::div_mod::lemma_fundamental_div_mod_converse(p, b * s, w, i * s + j);
}

/// Two distinct flat slots have distinct remainders: flat coordinates are
/// uniquely determined below the capacity.
proof fn lemma_flat_unique(i1: int, j1: int, i2: int, j2: int, s: int)
    by (nonlinear_arith)
    requires
        s >= 1,
        0 <= j1 < s,
        0 <= j2 < s,
        i1 * s + j1 == i2 * s + j2,
    ensures
        i1 == i2 && j1 == j2,
{
}

/// Positions less than one capacity apart that share a remainder modulo
/// the capacity are the same position.
proof fn lemma_mod_window(x: int, y: int, cap: int)
    requires
        cap >= 1,
        x % cap == y % cap,
        -cap < y - x < cap,
    ensures
        x == y,
{
    vstd::arithmetic::div_mod::lemma_fundamental_div_mod(x, cap);
    vstd::arithmetic::div_mod::lemma_fundamental_div_mod(y, cap);
    assert(x == y) by (nonlinear_arith)
        requires
            x == cap * (x / cap) + x % cap,
            y == cap * (y / cap) + y % cap,
            x % cap == y % cap,
            -cap < y - x < cap,
            cap >= 1,
    ;
}

impl<T, const BLOCK_NUM: usize, const SLOT_NUM: usize> RingBuffer<T, BLOCK_NUM, SLOT_NUM> {
    /// The producer's target slot `(head_block, head_fill)` stands exactly
    /// at the producer frontier position.
    proof fn lemma_back_slot(self)
        requires
            self.wf_inner(),
            self.head_fill() < self.scount(),
        ensures
            self.slot_position(self.head_block(), self.head_fill()) == self.total_pushed(),
            (self.total_pushed() / self.scount()) % self.bcount() == self.head_block(),
            self.total_pushed() % self.scount() == self.head_fill(),
            self.total_pushed() < self.total_popped() + self.capacity_spec(),
            self.total_pushed() % self.capacity_spec() == self.head_block() * self.scount()
                + self.head_fill(),
            self.blocks@[self.head_block()].slots@[self.head_fill()] is None,
    {
        let b = self.bcount();
        let s = self.scount();
        let hv = self.head_lap();
        let hb = self.head_block();
        let pi = self.head_fill();
        let qp = self.produced_blocks();
        let np = self.total_pushed();
        let nc = self.total_popped();
        let cap = self.capacity_spec();
        self.lemma_frontiers();
        assert(np < nc + cap) by (nonlinear_arith)
            requires
                np == qp * s + pi,
                pi < s,
                nc + cap >= (qp + 1) * s,
        ;
        assert(np == hv * cap + (hb * s + pi)) by (nonlinear_arith)
            requires
                np == (hv * b + hb) * s + pi,
                cap == b * s,
        ;
        assert(0 <= hb * s + pi < cap) by (nonlinear_arith)
            requires
                0 <= hb < b,
                0 <= pi < s,
                s >= 1,
                cap == b * s,
        ;
        lemma_pack(hv, hb * s + pi, cap);
        assert(np % cap == hb * s + pi);
        // the candidate position for the target slot is the frontier itself
        vstd::arithmetic::div_mod::lemma_mod_multiples_vanish(-hv, np - nc, cap);
        assert(hb * s + pi - nc == (np - nc) + cap * (-hv)) by (nonlinear_arith)
            requires
                np == hv * cap + (hb * s + pi),
        ;
        lemma_pack(0, np - nc, cap);
        assert((hb * s + pi - nc) % cap == np - nc);
        assert(self.slot_position(hb, pi) == np);
        // frontier coordinates
        lemma_position_slot(np, b, s);
        lemma_flat_unique((np / s) % b, np % s, hb, pi, s);
        // the slot is free: its position is not yet pushed
        assert(self.slot_ok(hb, pi));
    }

    /// The consumer's target slot `(tail_block, tail_drain)` stands exactly
    /// at the consumer frontier position and holds the oldest element.
    proof fn lemma_front_slot(self)
        requires
            self.wf_inner(),
            self.tail_drain() < self.scount(),
            self.total_pushed() > self.total_popped(),
        ensures
            self.slot_position(self.tail_block(), self.tail_drain()) == self.total_popped(),
            (self.total_popped() / self.scount()) % self.bcount() == self.tail_block(),
            self.total_popped() % self.scount() == self.tail_drain(),
            self.total_popped() % self.capacity_spec() == self.tail_block() * self.scount()
                + self.tail_drain(),
            self.blocks@[self.tail_block()].slots@[self.tail_drain()] is Some,
            self.blocks@[self.tail_block()].slots@[self.tail_drain()].unwrap() == self@[0],
    {
        let b = self.bcount();
        let s = self.scount();
        let tv = self.tail_lap();
        let tb = self.tail_block();
        let ci = self.tail_drain();
        let nc = self.total_popped();
        let cap = self.capacity_spec();
        self.lemma_frontiers();
        assert(nc == tv * cap + (tb * s + ci)) by (nonlinear_arith)
            requires
                nc == (tv * b + tb) * s + ci,
                cap == b * s,
        ;
        assert(0 <= tb * s + ci < cap) by (nonlinear_arith)
            requires
                0 <= tb < b,
                0 <= ci < s,
                s >= 1,
                cap == b * s,
        ;
        lemma_pack(tv, tb * s + ci, cap);
        vstd::arithmetic::div_mod::lemma_mod_multiples_vanish(-tv, 0, cap);
        assert(tb * s + ci - nc == 0 + cap * (-tv)) by (nonlinear_arith)
            requires
                nc == tv * cap + (tb * s + ci),
        ;
        lemma_pack(0, 0, cap);
        assert((tb * s + ci - nc) % cap == 0);
        assert(self.slot_position(tb, ci) == nc);
        lemma_position_slot(nc, b, s);
        lemma_flat_unique((nc / s) % b, nc % s, tb, ci, s);
        assert(self.slot_ok(tb, ci));
        assert(self@[0] == self.elem_at(nc));
    }
}

} // verus!

verus! {

impl<T, const BLOCK_NUM: usize, const SLOT_NUM: usize> RingBuffer<T, BLOCK_NUM, SLOT_NUM> {
    /// After one committed write into the head block the invariant holds
    /// again and the view has gained `value` at its back.
    proof fn lemma_after_commit(self, prev: Self, value: T)
        requires
            prev.wf_inner(),
            prev.tail_drain() == 0 ==> prev.total_popped() == 0,
            prev.head_fill() < prev.scount(),
            self.head == prev.head,
            self.tail == prev.tail,
            self.one_lap == prev.one_lap,
            self.blocks@.len() == prev.blocks@.len(),
            ({
                let hb = prev.head_block();
                let pi = prev.head_fill();
                &&& forall|i: int|
                    0 <= i < prev.blocks@.len() && i != hb ==> self.blocks@[i] == prev.blocks@[i]
                &&& self.blocks@[hb].allocated as int == prev.blocks@[hb].allocated as int + 1
                &&& self.blocks@[hb].committed as int == prev.blocks@[hb].committed as int + 1
                &&& self.blocks@[hb].reserved == prev.blocks@[hb].reserved
                &&& self.blocks@[hb].consumed == prev.blocks@[hb].consumed
                &&& self.blocks@[hb].one_lap == prev.blocks@[hb].one_lap
                &&& self.blocks@[hb].slots@ == prev.blocks@[hb].slots@.update(pi, Some(value))
            }),
        ensures
            self.wf(),
            self.total_pushed() == prev.total_pushed() + 1,
            self.total_popped() == prev.total_popped(),
            self@ == prev@.push(value),
    {
        let b = prev.bcount();
        let s = prev.scount();
        let l = prev.lap();
        let hv = prev.head_lap();
        let hb = prev.head_block();
        let pi = prev.head_fill();
        let np = prev.total_pushed();
        let nc = prev.total_popped();
        let cap = prev.capacity_spec();
        prev.lemma_frontiers();
        prev.lemma_back_slot();
        assert(prev.block_ok(hb));
        // the head coordinates stay, the fill advances by one
        assert(self.head_lap() == hv && self.head_block() == hb);
        assert(prev.blocks@[hb].committed as int == prev.prod_version(hb) * l + pi);
        lemma_pack(prev.prod_version(hb), pi + 1, l);
        assert(self.head_fill() == pi + 1);
        assert(self.produced_blocks() == prev.produced_blocks());
        assert(self.total_pushed() == np + 1);
        // the consumer side is untouched
        assert(self.tail_lap() == prev.tail_lap() && self.tail_block() == prev.tail_block());
        assert(self.blocks@[prev.tail_block()].reserved == prev.blocks@[prev.tail_block()].reserved);
        assert(self.tail_drain() == prev.tail_drain());
        assert(self.total_popped() == nc);
        // every block still agrees with the formulas
        assert forall|i: int| 0 <= i < b implies self.block_ok(i) by {
            assert(prev.block_ok(i));
            assert(self.prod_version(i) == prev.prod_version(i));
            assert(self.cons_version(i) == prev.cons_version(i));
            assert(self.cons_index(i) == prev.cons_index(i));
            if i == hb {
                assert(self.prod_index(i) == pi + 1);
            } else {
                assert(self.blocks@[i] == prev.blocks@[i]);
                assert(self.prod_index(i) == prev.prod_index(i));
            }
        }
        assert(self.wf_counts());
        // slot bookkeeping: only the back slot changed, and its position is
        // the old frontier, newly covered
        assert forall|i: int, j: int|
            0 <= i < b && 0 <= j < s implies self.slot_ok(i, j) by {
            assert(prev.slot_ok(i, j));
            assert(self.slot_position(i, j) == prev.slot_position(i, j));
            if i == hb && j == pi {
                assert(self.blocks@[i].slots@[j] is Some);
                assert(self.slot_position(i, j) == np < np + 1);
            } else {
                assert(self.blocks@[i].slots@[j] == prev.blocks@[i].slots@[j]);
                // no other slot's position equals the old frontier
                if prev.slot_position(i, j) == np {
                    vstd::arithmetic::div_mod::lemma_mod_bound(i * s + j - nc, cap);
                    lemma_pack(0, np - nc, cap);
                    assert((i * s + j - nc) % cap == (np - nc) % cap);
                    assert((i * s + j) % cap == np % cap) by {
                        vstd::arithmetic::div_mod::lemma_mod_multiples_vanish(
                            0,
                            i * s + j - nc,
                            cap,
                        );
                        vstd::arithmetic::div_mod::lemma_add_mod_noop(i * s + j - nc, nc, cap);
                        vstd::arithmetic::div_mod::lemma_add_mod_noop(np - nc, nc, cap);
                        vstd::arithmetic::div_mod::lemma_mod_twice(np, cap);
                        vstd::arithmetic::div_mod::lemma_mod_twice(nc, cap);
                    }
                    assert(0 <= i * s + j < cap) by (nonlinear_arith)
                        requires
                            0 <= i < b,
                            0 <= j < s,
                            s >= 1,
                            cap == b * s,
                    ;
                    lemma_pack(0, i * s + j, cap);
                    assert(np % cap == hb * s + pi);
                    lemma_flat_unique(i, j, hb, pi, s);
                }
                assert(self.slot_position(i, j) < np + 1 <==> prev.slot_position(i, j) < np);
            }
        }
        // the contents: old positions read the same slots, the new back
        // position reads the fresh value
        assert forall|p: int| nc <= p < np + 1 implies self.elem_at(p) == (if p < np {
            prev.elem_at(p)
        } else {
            value
        }) by {
            lemma_position_slot(p, b, s);
            let i = (p / s) % b;
            let j = p % s;
            if p < np {
                if i == hb && j == pi {
                    // that slot's position is the frontier, not an interior
                    // position
                    assert(p % cap == np % cap) by {
                        assert(np % cap == hb * s + pi);
                    }
                    lemma_mod_window(p, np, cap);
                    assert(false);
                }
                assert(self.blocks@[i].slots@[j] == prev.blocks@[i].slots@[j]);
            } else {
                assert(p == np);
                lemma_flat_unique(i, j, hb, pi, s);
                assert(self.blocks@[i].slots@[j] == Some(value));
            }
        }
        assert(self@ =~= prev@.push(value));
    }

    /// After one consume from the tail block the invariant holds again and
    /// the view has lost its front element.
    proof fn lemma_after_consume(self, prev: Self)
        requires
            prev.wf_inner(),
            prev.head_fill() == 0 ==> prev.total_pushed() == 0,
            prev.tail_drain() < prev.scount(),
            prev.total_pushed() > prev.total_popped(),
            self.head == prev.head,
            self.tail == prev.tail,
            self.one_lap == prev.one_lap,
            self.blocks@.len() == prev.blocks@.len(),
            ({
                let tb = prev.tail_block();
                let ci = prev.tail_drain();
                &&& forall|i: int|
                    0 <= i < prev.blocks@.len() && i != tb ==> self.blocks@[i] == prev.blocks@[i]
                &&& self.blocks@[tb].reserved as int == prev.blocks@[tb].reserved as int + 1
                &&& self.blocks@[tb].consumed as int == prev.blocks@[tb].consumed as int + 1
                &&& self.blocks@[tb].allocated == prev.blocks@[tb].allocated
                &&& self.blocks@[tb].committed == prev.blocks@[tb].committed
                &&& self.blocks@[tb].one_lap == prev.blocks@[tb].one_lap
                &&& self.blocks@[tb].slots@ == prev.blocks@[tb].slots@.update(ci, None::<T>)
            }),
        ensures
            self.wf(),
            self.total_popped() == prev.total_popped() + 1,
            self.total_pushed() == prev.total_pushed(),
            self@ == prev@.subrange(1, prev@.len() as int),
    {
        let b = prev.bcount();
        let s = prev.scount();
        let l = prev.lap();
        let tb = prev.tail_block();
        let ci = prev.tail_drain();
        let np = prev.total_pushed();
        let nc = prev.total_popped();
        let cap = prev.capacity_spec();
        prev.lemma_frontiers();
        prev.lemma_front_slot();
        assert(prev.block_ok(tb));
        // the tail coordinates stay, the drain advances by one
        assert(self.tail_lap() == prev.tail_lap() && self.tail_block() == tb);
        assert(prev.blocks@[tb].reserved as int == prev.cons_version(tb) * l + ci);
        lemma_pack(prev.cons_version(tb), ci + 1, l);
        assert(self.tail_drain() == ci + 1);
        assert(self.consumed_blocks() == prev.consumed_blocks());
        assert(self.total_popped() == nc + 1);
        // the producer side is untouched
        assert(self.head_lap() == prev.head_lap() && self.head_block() == prev.head_block());
        assert(self.blocks@[prev.head_block()].committed == prev.blocks@[prev.head_block()].committed);
        assert(self.head_fill() == prev.head_fill());
        assert(self.total_pushed() == np);
        // every block still agrees with the formulas
        assert forall|i: int| 0 <= i < b implies self.block_ok(i) by {
            assert(prev.block_ok(i));
            assert(self.cons_version(i) == prev.cons_version(i));
            assert(self.prod_version(i) == prev.prod_version(i));
            assert(self.prod_index(i) == prev.prod_index(i));
            if i == tb {
                assert(self.cons_index(i) == ci + 1);
            } else {
                assert(self.blocks@[i] == prev.blocks@[i]);
                assert(self.cons_index(i) == prev.cons_index(i));
            }
        }
        assert(self.wf_counts());
        // slot bookkeeping: the freed slot's position moves one capacity on
        // and is no longer covered; every other candidate position stays
        assert forall|i: int, j: int|
            0 <= i < b && 0 <= j < s implies self.slot_ok(i, j) by {
            assert(prev.slot_ok(i, j));
            vstd::arithmetic::div_mod::lemma_mod_bound(i * s + j - nc, cap);
            if i == tb && j == ci {
                assert((i * s + j - nc) % cap == 0) by {
                    vstd::arithmetic::div_mod::lemma_sub_mod_noop(tb * s + ci, nc, cap);
                    vstd::arithmetic::div_mod::lemma_sub_mod_noop(nc, nc, cap);
                    assert(0 <= tb * s + ci < cap) by (nonlinear_arith)
                        requires
                            0 <= tb < b,
                            0 <= ci < s,
                            s >= 1,
                            cap == b * s,
                    ;
                    lemma_pack(0, tb * s + ci, cap);
                    assert((nc - nc) % cap == 0) by {
                        lemma_pack(0, 0, cap);
                    }
                }
                assert((i * s + j - (nc + 1)) % cap == cap - 1) by {
                    vstd::arithmetic::div_mod::lemma_fundamental_div_mod(i * s + j - nc, cap);
                    let q = (i * s + j - nc) / cap;
                    assert(i * s + j - (nc + 1) == (q - 1) * cap + (cap - 1)) by (nonlinear_arith)
                        requires
                            i * s + j - nc == cap * q,
                    ;
                    lemma_pack(q - 1, cap - 1, cap);
                }
                assert(self.slot_position(i, j) == nc + cap >= np);
                assert(self.blocks@[i].slots@[j] is None);
            } else {
                assert(self.blocks@[i].slots@[j] == prev.blocks@[i].slots@[j]);
                let d = (i * s + j - nc) % cap;
                if d == 0 {
                    // only the freed slot matches the frontier remainder
                    assert(0 <= i * s + j < cap) by (nonlinear_arith)
                        requires
                            0 <= i < b,
                            0 <= j < s,
                            s >= 1,
                            cap == b * s,
                    ;
                    vstd::arithmetic::div_mod::lemma_sub_mod_noop(i * s + j, nc, cap);
                    vstd::arithmetic::div_mod::lemma_sub_mod_noop(tb * s + ci, nc, cap);
                    lemma_pack(0, i * s + j, cap);
                    lemma_pack(0, tb * s + ci, cap);
                    assert((tb * s + ci - nc) % cap == 0);
                    assert((i * s + j) % cap == (tb * s + ci) % cap) by {
                        vstd::arithmetic::div_mod::lemma_add_mod_noop(i * s + j - nc, nc, cap);
                        vstd::arithmetic::div_mod::lemma_add_mod_noop(tb * s + ci - nc, nc, cap);
                    }
                    lemma_flat_unique(i, j, tb, ci, s);
                    assert(false);
                }
                assert((i * s + j - (nc + 1)) % cap == d - 1) by {
                    vstd::arithmetic::div_mod::lemma_fundamental_div_mod(i * s + j - nc, cap);
                    let q = (i * s + j - nc) / cap;
                    assert(i * s + j - (nc + 1) == q * cap + (d - 1)) by (nonlinear_arith)
                        requires
                            i * s + j - nc == cap * q + d,
                    ;
                    lemma_pack(q, d - 1, cap);
                }
                assert(self.slot_position(i, j) == nc + d == prev.slot_position(i, j));
            }
        }
        // the contents shift down by one
        assert forall|p: int| nc + 1 <= p < np implies self.elem_at(p) == prev.elem_at(p) by {
            lemma_position_slot(p, b, s);
            let i = (p / s) % b;
            let j = p % s;
            if i == tb && j == ci {
                assert(p % cap == nc % cap);
                lemma_mod_window(nc, p, cap);
                assert(false);
            }
            assert(self.blocks@[i].slots@[j] == prev.blocks@[i].slots@[j]);
        }
        assert(self@ =~= prev@.subrange(1, prev@.len() as int));
    }
}

} // verus!

verus! {

impl<T, const BLOCK_NUM: usize, const SLOT_NUM: usize> RingBuffer<T, BLOCK_NUM, SLOT_NUM> {
    /// Whether a push is accepted in the current state. The current head
    /// block has room while the count of pushes is not a multiple of
    /// `SLOT_NUM`; at a block boundary the next block must be at least
    /// `SLOT_NUM` elements clear of the consumer frontier. A ring holding at
    /// most `capacity - SLOT_NUM` elements therefore always accepts, and a
    /// full ring never does.
    pub open spec fn can_push(&self) -> bool {
        ||| self.total_pushed() == 0
        ||| self.total_pushed() % (SLOT_NUM as int) != 0
        ||| self.total_pushed() + SLOT_NUM as int <= self.total_popped() + BLOCK_NUM as int
            * SLOT_NUM as int
    }

    /// `can_push` restated over the head coordinates.
    proof fn lemma_can_push_iff(self)
        requires
            self.wf(),
        ensures
            self.can_push() <==> (self.head_fill() < self.scount() || self.total_popped()
                + self.capacity_spec() >= self.total_pushed() + self.scount()),
    {
        let s = self.scount();
        let pi = self.head_fill();
        let qp = self.produced_blocks();
        let np = self.total_pushed();
        self.lemma_frontiers();
        if pi < s {
            if pi == 0 {
                assert(np == 0);
            } else {
                lemma_pack(qp, pi, s);
                assert(np % s == pi);
            }
        } else {
            assert(np == qp * s + s);
            assert(np == (qp + 1) * s) by (nonlinear_arith)
                requires
                    np == qp * s + s,
            ;
            lemma_pack(qp + 1, 0, s);
            assert(np % s == 0);
            assert(qp >= 0) by (nonlinear_arith)
                requires
                    qp == self.head_lap() * self.bcount() + self.head_block(),
                    self.head_lap() >= 0,
                    self.head_block() >= 0,
                    self.bcount() >= 1,
            ;
            assert(np >= 1 * s) by (nonlinear_arith)
                requires
                    np == (qp + 1) * s,
                    qp >= 0,
                    s >= 1,
            ;
        }
    }

    /// With the tail block not yet drained, its committed count equals the
    /// drained count exactly when the ring is empty.
    proof fn lemma_consume_test(self)
        requires
            self.wf_inner(),
            self.head_fill() == 0 ==> self.total_pushed() == 0,
            self.tail_drain() < self.scount(),
        ensures
            (self.tail_drain() == self.prod_index(self.tail_block())) <==> self.total_pushed()
                == self.total_popped(),
    {
        let b = self.bcount();
        let s = self.scount();
        let hv = self.head_lap();
        let hb = self.head_block();
        let tv = self.tail_lap();
        let tb = self.tail_block();
        let pi = self.head_fill();
        let ci = self.tail_drain();
        let qp = self.produced_blocks();
        let qc = self.consumed_blocks();
        let np = self.total_pushed();
        let nc = self.total_popped();
        let cap = self.capacity_spec();
        self.lemma_frontiers();
        if tb == hb {
            // the producer cannot be a lap ahead on the very block the
            // consumer is still draining
            if hv > tv {
                assert(ci >= s) by (nonlinear_arith)
                    requires
                        nc + cap >= (qp + 1) * s,
                        nc == qc * s + ci,
                        cap == b * s,
                        qp == hv * b + hb,
                        qc == tv * b + tb,
                        tb == hb,
                        hv >= tv + 1,
                        b >= 1,
                        s >= 1,
                ;
            }
            assert(tv == hv);
            assert(qp == qc) by (nonlinear_arith)
                requires
                    qp == hv * b + hb,
                    qc == tv * b + tb,
                    tv == hv,
                    tb == hb,
            ;
            assert(np - nc == pi - ci);
            assert(self.prod_index(tb) == pi);
        } else {
            assert(self.prod_index(tb) == s);
            if qp == qc {
                lemma_lex(hv, hb, tv, tb, b);
                assert(hb == tb);
                assert(false);
            }
            assert(qp >= qc + 1);
            assert(np > nc) by (nonlinear_arith)
                requires
                    np == qp * s + pi,
                    nc == qc * s + ci,
                    qp >= qc + 1,
                    pi >= 0,
                    0 <= ci < s,
                    s >= 1,
            ;
        }
    }
}

} // verus!

verus! {

impl<T, const BLOCK_NUM: usize, const SLOT_NUM: usize> RingBuffer<T, BLOCK_NUM, SLOT_NUM> {
    /// Two states with the same cursor words and block contents satisfy the
    /// same invariant and show the same queue.
    proof fn lemma_same_fields(self, prev: Self)
        requires
            prev.wf_inner(),
            self.head == prev.head,
            self.tail == prev.tail,
            self.one_lap == prev.one_lap,
            self.blocks@ == prev.blocks@,
        ensures
            self.wf_inner(),
            self@ == prev@,
            self.total_pushed() == prev.total_pushed(),
            self.total_popped() == prev.total_popped(),
            self.head_fill() == prev.head_fill(),
            self.tail_drain() == prev.tail_drain(),
    {
        let b = prev.bcount();
        let s = prev.scount();
        assert forall|i: int| 0 <= i < b implies self.block_ok(i) by {
            assert(prev.block_ok(i));
        }
        assert forall|i: int, j: int|
            0 <= i < b && 0 <= j < s implies self.slot_ok(i, j) by {
            assert(prev.slot_ok(i, j));
        }
        assert forall|p: int|
            prev.total_popped() <= p < prev.total_pushed() implies self.elem_at(p) == prev.elem_at(
            p,
        ) by {
            assert(self.blocks@[(p / s) % b] == prev.blocks@[(p / s) % b]);
        }
        assert(self@ =~= prev@);
    }

    /// Push one value. Fails, handing the value back, exactly when the
    /// current head block is exhausted and the next block is not fully
    /// drained (`can_push`); the ring is then unchanged. On success the
    /// value joins the back of the queue.
    ///
    /// The cursor-word bound in the precondition leaves room for one lap
    /// bump; it allows on the order of `usize::MAX / one_lap` laps over the
    /// ring's whole life before the version bits would wrap.
    #[verifier::loop_isolation(false)]
    pub fn push(&mut self, value: T) -> (r: Result<(), T>)
        requires
            old(self).wf(),
            old(self).head_cursor() + 2 * old(self).lap() <= usize::MAX as int,
        ensures
            final(self).wf(),
            final(self).lap() == old(self).lap(),
            final(self).tail_cursor() == old(self).tail_cursor(),
            old(self).head_cursor() <= final(self).head_cursor(),
            final(self).head_cursor() <= old(self).head_cursor() + old(self).lap(),
            old(self).can_push() ==> r is Ok && final(self)@ == old(self)@.push(value)
                && final(self).total_pushed() == old(self).total_pushed() + 1
                && final(self).total_popped() == old(self).total_popped(),
            !old(self).can_push() ==> (r matches Err(v) && v == value)
                && final(self)@ == old(self)@
                && final(self).total_pushed() == old(self).total_pushed()
                && final(self).total_popped() == old(self).total_popped()
                && final(self).head_cursor() == old(self).head_cursor(),
    {
        proof {
            old(self).lemma_frontiers();
            old(self).lemma_can_push_iff();
        }
        let ghost orig_value = value;
        let ghost mut advanced = false;
        let mut value = value;
        loop
            invariant
                self.wf_inner(),
                self.tail_drain() == 0 ==> self.total_popped() == 0,
                self.tail == old(self).tail,
                self.total_pushed() == old(self).total_pushed(),
                self.total_popped() == old(self).total_popped(),
                self@ == old(self)@,
                value == orig_value,
                old(self).head <= self.head,
                self.head as int <= old(self).head as int + old(self).one_lap as int,
                (if advanced {
                    self.head_fill() == 0 && old(self).can_push()
                } else {
                    *self == *old(self)
                }),
            decreases (if advanced {
                0int
            } else {
                1int
            }),
        {
            let ghost b = self.bcount();
            let ghost s = self.scount();
            let ghost l = self.lap();
            let head: usize = self.head;
            let blk_idx: usize = cursor_index(head, self.one_lap);
            proof {
                self.lemma_frontiers();
                assert(self.block_ok(self.head_block()));
                lemma_pack(self.prod_version(self.head_block()), self.head_fill(), l);
                // the claim cursor has room for one more bump
                assert((self.head_lap() + 1) * l == self.head_lap() * l + l) by (nonlinear_arith);
                if self.head_block() >= 1 {
                    assert(self.prod_version(self.head_block()) * l <= self.head as int - 1 + l);
                } else {
                    assert(self.prod_version(self.head_block()) * l <= self.head as int);
                }
                assert(self.blocks@[self.head_block()].allocated < usize::MAX);
            }
            let ghost pre = *self;
            match self.blocks[blk_idx].try_commit(value) {
                CommitResult::Success => {
                    proof {
                        self.lemma_after_commit(pre, value);
                    }
                    return Ok(());
                },
                CommitResult::BlockDone(val) => {
                    value = val;
                    proof {
                        // the write-free attempt left every slot and cursor
                        // as it was
                        assert(self.blocks@ =~= pre.blocks@);
                        self.lemma_same_fields(pre);
                        // the block was exhausted, so the fill sits at the
                        // slot count and the lazy clauses hold
                        assert(self.head_fill() == s);
                        assert(self.wf());
                    }
                    match self.advance_head(head) {
                        AdvanceHeadResult::NoEntry => {
                            // the ring is full at block granularity
                            return Err(value);
                        },
                        AdvanceHeadResult::NotAvailable => {
                            // never taken sequentially: consumers park their
                            // cursors together between operations
                        },
                        AdvanceHeadResult::Success => {
                            proof {
                                advanced = true;
                            }
                        },
                    }
                },
            }
        }
    }

    /// Pop the oldest value, or `None` exactly when the ring is empty; the
    /// ring is then unchanged.
    ///
    /// The cursor-word bound in the precondition mirrors the one on `push`.
    #[verifier::loop_isolation(false)]
    pub fn pop(&mut self) -> (r: Option<T>)
        requires
            old(self).wf(),
            old(self).tail_cursor() + 2 * old(self).lap() <= usize::MAX as int,
        ensures
            final(self).wf(),
            final(self).lap() == old(self).lap(),
            final(self).head_cursor() == old(self).head_cursor(),
            old(self).tail_cursor() <= final(self).tail_cursor(),
            final(self).tail_cursor() <= old(self).tail_cursor() + old(self).lap(),
            old(self)@.len() > 0 ==> r == Some(old(self)@[0])
                && final(self)@ == old(self)@.subrange(1, old(self)@.len() as int)
                && final(self).total_popped() == old(self).total_popped() + 1
                && final(self).total_pushed() == old(self).total_pushed(),
            old(self)@.len() == 0 ==> r is None && final(self)@ == old(self)@
                && final(self).total_pushed() == old(self).total_pushed()
                && final(self).total_popped() == old(self).total_popped()
                && final(self).tail_cursor() == old(self).tail_cursor(),
    {
        proof {
            old(self).lemma_frontiers();
        }
        let ghost mut advanced = false;
        loop
            invariant
                self.wf_inner(),
                self.head_fill() == 0 ==> self.total_pushed() == 0,
                self.head == old(self).head,
                self.total_pushed() == old(self).total_pushed(),
                self.total_popped() == old(self).total_popped(),
                self@ == old(self)@,
                old(self).tail <= self.tail,
                self.tail as int <= old(self).tail as int + old(self).one_lap as int,
                (if advanced {
                    self.tail_drain() == 0 && self.total_pushed() > self.total_popped()
                } else {
                    *self == *old(self)
                }),
            decreases (if advanced {
                0int
            } else {
                1int
            }),
        {
            let ghost b = self.bcount();
            let ghost s = self.scount();
            let ghost l = self.lap();
            let tail: usize = self.tail;
            let blk_idx: usize = cursor_index(tail, self.one_lap);
            proof {
                self.lemma_frontiers();
                assert(self.block_ok(self.tail_block()));
                lemma_pack(self.cons_version(self.tail_block()), self.tail_drain(), l);
                lemma_pack(self.prod_version(self.tail_block()), self.prod_index(self.tail_block()), l);
                // the claim cursor has room for one more bump
                assert((self.tail_lap() + 1) * l == self.tail_lap() * l + l) by (nonlinear_arith);
                if self.tail_block() >= 1 {
                    assert(self.cons_version(self.tail_block()) * l <= self.tail as int - 1 + l);
                } else {
                    assert(self.cons_version(self.tail_block()) * l <= self.tail as int);
                }
                assert(self.blocks@[self.tail_block()].reserved < usize::MAX);
                if self.tail_drain() < s {
                    self.lemma_consume_test();
                    if self.tail_drain() != self.prod_index(self.tail_block()) {
                        self.lemma_front_slot();
                    }
                }
            }
            let ghost pre = *self;
            match self.blocks[blk_idx].try_consume() {
                ConsumeResult::BlockDone => {
                    proof {
                        // the read-free attempt left every slot and cursor
                        // as it was
                        assert(self.blocks@ =~= pre.blocks@);
                        self.lemma_same_fields(pre);
                        // the block was drained, so the drain count sits at
                        // the slot count and the lazy clauses hold
                        assert(self.tail_drain() == s);
                        assert(self.wf());
                    }
                    match self.advance_tail(tail) {
                        AdvanceTailResult::NoEntry => {
                            // the ring is empty
                            return None;
                        },
                        AdvanceTailResult::Success => {
                            proof {
                                advanced = true;
                            }
                        },
                    }
                },
                ConsumeResult::NoEntry => {
                    // nothing published past what this block handed out
                    proof {
                        assert(self.blocks@ =~= pre.blocks@);
                        self.lemma_same_fields(pre);
                        assert(self.wf());
                    }
                    return None;
                },
                ConsumeResult::NotAvailable => {
                    // never taken sequentially: producers park their cursors
                    // together between operations
                },
                ConsumeResult::Success(val) => {
                    proof {
                        self.lemma_after_consume(pre);
                    }
                    return Some(val);
                },
            }
        }
    }
}

} // verus!

verus! {

impl<T, const BLOCK_NUM: usize, const SLOT_NUM: usize> RingBuffer<T, BLOCK_NUM, SLOT_NUM> {
    /// How far the two frontiers can sit apart in a well-formed ring: at
    /// most one lap, and within the border cases only in the order the
    /// protocol produces.
    proof fn lemma_len_shape(self)
        requires
            self.wf(),
        ensures
            self.tail_lap() <= self.head_lap() <= self.tail_lap() + 1,
            self.head_lap() == self.tail_lap() ==> self.tail_block() <= self.head_block(),
            self.head_lap() == self.tail_lap() && self.head_block() == self.tail_block()
                ==> self.tail_drain() <= self.head_fill(),
            self.head_lap() == self.tail_lap() + 1 ==> self.head_block() <= self.tail_block(),
            self.total_pushed() - self.total_popped() == (self.produced_blocks()
                - self.consumed_blocks()) * self.scount() + self.head_fill() - self.tail_drain(),
    {
        let b = self.bcount();
        let s = self.scount();
        let hv = self.head_lap();
        let hb = self.head_block();
        let tv = self.tail_lap();
        let tb = self.tail_block();
        let pi = self.head_fill();
        let ci = self.tail_drain();
        let qp = self.produced_blocks();
        let qc = self.consumed_blocks();
        let np = self.total_pushed();
        let nc = self.total_popped();
        let cap = self.capacity_spec();
        self.lemma_frontiers();
        assert(np - nc == (qp - qc) * s + pi - ci) by (nonlinear_arith)
            requires
                np == qp * s + pi,
                nc == qc * s + ci,
        ;
        // more than one block's worth of lead over the capacity is ruled out
        if qp - qc >= b + 1 {
            assert(pi - ci <= -s) by (nonlinear_arith)
                requires
                    np - nc == (qp - qc) * s + pi - ci,
                    np - nc <= cap,
                    cap == b * s,
                    qp - qc >= b + 1,
                    s >= 1,
            ;
            assert(pi == 0 && ci == s);
            assert(np == 0);
            assert(nc == 0);
            assert(ci == 0);
        }
        assert(qp - qc <= b);
        lemma_lex(hv, hb, tv, tb, b);
        if hv >= tv + 2 {
            assert(qp - qc >= b + 1) by (nonlinear_arith)
                requires
                    qp == hv * b + hb,
                    qc == tv * b + tb,
                    hv >= tv + 2,
                    0 <= hb < b,
                    0 <= tb < b,
                ;
        }
        if hv == tv + 1 && hb > tb {
            assert(qp - qc >= b + 1) by (nonlinear_arith)
                requires
                    qp == hv * b + hb,
                    qc == tv * b + tb,
                    hv == tv + 1,
                    hb > tb,
                ;
        }
        if hv == tv && hb == tb {
            assert(qp == qc) by (nonlinear_arith)
                requires
                    qp == hv * b + hb,
                    qc == tv * b + tb,
                    hv == tv,
                    hb == tb,
            ;
        }
    }

    /// Total capacity: `BLOCK_NUM * SLOT_NUM` elements.
    pub fn capacity(&self) -> (r: usize)
        requires
            BLOCK_NUM as int * SLOT_NUM as int <= usize::MAX as int,
        ensures
            r as int == self.capacity_spec(),
    {
        BLOCK_NUM * SLOT_NUM
    }

    /// How many elements the ring holds.
    pub fn len(&self) -> (r: usize)
        requires
            self.wf(),
        ensures
            r as int == self@.len(),
    {
        proof {
            self.lemma_frontiers();
            self.lemma_len_shape();
            assert(self.block_ok(self.head_block()));
            assert(self.block_ok(self.tail_block()));
            lemma_pack(self.prod_version(self.head_block()), self.head_fill(), self.lap());
            lemma_pack(self.cons_version(self.tail_block()), self.tail_drain(), self.lap());
        }
        let one_lap: usize = self.one_lap;
        let hv: usize = self.head / one_lap;
        let hb: usize = self.head % one_lap;
        let tv: usize = self.tail / one_lap;
        let tb: usize = self.tail % one_lap;
        let fill: usize = self.blocks[hb].committed % one_lap;
        let drain: usize = self.blocks[tb].reserved % one_lap;
        let ghost s = self.scount();
        let ghost dq = self.produced_blocks() - self.consumed_blocks();
        if hv == tv && hb == tb {
            // same block: the counts differ by the in-block fill
            fill - drain
        } else {
            // the producer is ahead by `dq` blocks: count the whole blocks
            // between the frontiers and the two partial blocks at the ends
            let whole: usize = if hv == tv {
                hb - tb
            } else {
                (BLOCK_NUM - tb) + hb
            };
            proof {
                assert(whole == dq) by (nonlinear_arith)
                    requires
                        self.produced_blocks() == self.head_lap() * self.bcount()
                            + self.head_block(),
                        self.consumed_blocks() == self.tail_lap() * self.bcount()
                            + self.tail_block(),
                        dq == self.produced_blocks() - self.consumed_blocks(),
                        whole == (if self.head_lap() == self.tail_lap() {
                            self.head_block() - self.tail_block()
                        } else {
                            (self.bcount() - self.tail_block()) + self.head_block()
                        }),
                        self.head_lap() == self.tail_lap() || self.head_lap() == self.tail_lap()
                            + 1,
                ;
                assert((dq - 1) * s + fill + (s - drain) == self@.len()) by (nonlinear_arith)
                    requires
                        self@.len() == dq * s + fill - drain,
                        dq >= 1,
                ;
                assert(self@.len() <= self.capacity_spec());
                assert((dq - 1) * s >= 0 && (dq - 1) * s <= self@.len()) by (nonlinear_arith)
                    requires
                        self@.len() == (dq - 1) * s + fill + (s - drain),
                        0 <= fill <= s,
                        0 <= drain <= s,
                        dq >= 1,
                        s >= 1,
                ;
            }
            ((whole - 1) * SLOT_NUM + fill) + (SLOT_NUM - drain)
        }
    }

    /// Whether the ring holds nothing.
    pub fn is_empty(&self) -> (r: bool)
        requires
            self.wf(),
        ensures
            r <==> self@.len() == 0,
    {
        self.len() == 0
    }

    /// Whether the ring holds its full capacity.
    pub fn is_full(&self) -> (r: bool)
        requires
            self.wf(),
        ensures
            r <==> self@.len() == self.capacity_spec(),
    {
        proof {
            self.lemma_frontiers();
        }
        self.len() == self.capacity()
    }

    /// A well-formed ring never holds more than its capacity, and a ring
    /// with at least one whole block of room always accepts a push.
    pub proof fn lemma_bounded_capacity(self)
        requires
            self.wf(),
        ensures
            self@.len() <= self.capacity_spec(),
            self@.len() + SLOT_NUM as int <= self.capacity_spec() ==> self.can_push(),
            self@.len() == self.capacity_spec() ==> !self.can_push(),
    {
        self.lemma_frontiers();
        self.lemma_can_push_iff();
        if self@.len() == self.capacity_spec() {
            // a full ring sits exactly at a block boundary
            assert(self.head_fill() >= self.scount()) by (nonlinear_arith)
                requires
                    self.total_pushed() == self.total_popped() + self.capacity_spec(),
                    self.total_popped() + self.capacity_spec() >= (self.produced_blocks() + 1)
                        * self.scount(),
                    self.total_pushed() == self.produced_blocks() * self.scount()
                        + self.head_fill(),
            ;
        }
    }
}

} // verus!
