//! The collector: an arena of blocks, the allocation path through it, and the
//! collection cycle that keeps or recycles whole blocks.

use crate::block::{Block, BlockModel};
use crate::handle::{GcRef, Span, Trace};
use crate::layout::{block_capacity, lemma_capacity_for, request_size, BLOCK_SIZE};
use crate::model::GcModel;
use crate::order::{lemma_reordering, lemma_sorted_blocks, models, sort_addresses, sort_by_base};
use crate::sweep::{lemma_marked_by_members, lemma_sweep_parts, marked, reclaimed, retained, sweep};
use vstd::prelude::*;

verus! {

/// Why an operation was refused.
#[derive(Clone, Copy, Debug, PartialEq, Eq, Structural)]
pub enum GcError {
    /// A collection cycle is open: nothing may be allocated, and no second
    /// cycle may begin, until it has ended.
    CollectionInProgress,
    /// No collection cycle is open: there is nothing to mark or to end.
    NoCollection,
    /// The address space cannot hold the block that the request needs.
    Exhausted,
}

/// How the collector is to treat the bytes of an allocation.
#[derive(Clone, Copy, Debug, PartialEq, Eq, Structural)]
pub enum AllocFlags {
    /// The bytes may hold further addresses.
    Scannable,
    /// The bytes hold no address.
    Opaque,
}

impl AllocFlags {
    /// The flags for an allocation described by two hints: whether it lives
    /// as long as the program, and whether its bytes hold no address.  Only
    /// the second one matters.
    pub fn from_hints(is_static: bool, is_atomic: bool) -> (flags: AllocFlags)
        ensures
            flags == (if is_atomic {
                AllocFlags::Opaque
            } else {
                AllocFlags::Scannable
            }),
    {
        if is_atomic {
            AllocFlags::Opaque
        } else {
            AllocFlags::Scannable
        }
    }

    /// Whether the bytes hold no address.
    pub fn is_opaque(&self) -> (opaque: bool)
        ensures
            opaque == (*self == AllocFlags::Opaque),
    {
        match self {
            AllocFlags::Opaque => true,
            AllocFlags::Scannable => false,
        }
    }
}

/// The collector.  It owns every block, and with it every byte of the arena.
pub struct GarbageCollector {
    used_blocks: Vec<Block>,
    free_blocks: Vec<Block>,
    marked_pointers: Vec<usize>,
    marking: bool,
    frontier: usize,
}

impl View for GarbageCollector {
    type V = GcModel;

    closed spec fn view(&self) -> GcModel {
        GcModel {
            used: models(self.used_blocks@),
            free: models(self.free_blocks@),
            marks: self.marked_pointers@,
            marking: self.marking,
            frontier: self.frontier as nat,
        }
    }
}

impl GarbageCollector {
    /// The collector's invariant: that of its model.
    pub open spec fn wf(&self) -> bool {
        self@.wf()
    }

    /// Creates a collector with one empty block in use.
    pub fn new() -> (gc: GarbageCollector)
        ensures
            gc@ == GcModel::initial(),
            gc.wf(),
    {
        let mut gc = GarbageCollector {
            used_blocks: Vec::with_capacity(0x100),
            free_blocks: Vec::with_capacity(0x100),
            marked_pointers: Vec::with_capacity(0x1000),
            marking: false,
            frontier: 2 * BLOCK_SIZE,
        };
        gc.used_blocks.push(Block::new(BLOCK_SIZE, BLOCK_SIZE));
        assert(gc@.used =~= GcModel::initial().used);
        assert(gc@.free =~= GcModel::initial().free);
        assert(gc@.blocks() =~= GcModel::initial().used);
        gc
    }

    /// Hands out `type_size * count` bytes and returns their address.
    ///
    /// The bytes come from the block that is being filled, if they fit
    /// there.  Otherwise a block is put in use for them: for a request above
    /// the default capacity a new block of the smallest sufficient power of
    /// two, else the free block recycled last, else a new block of the
    /// default capacity.  Blocks that exist are neither moved nor resized.
    /// Refused while a cycle is open, and where the address space cannot
    /// hold the new block.
    pub fn allocate(&mut self, type_size: usize, count: usize) -> (outcome: Result<usize, GcError>)
        requires
            old(self).wf(),
        ensures
            final(self).wf(),
            outcome == old(self)@.allocated((type_size * count) as nat),
            final(self)@ == old(self)@.after_allocate((type_size * count) as nat),
    {
        let ghost pre = self@;
        let ghost wanted = (type_size * count) as nat;
        if self.marking {
            return Err(GcError::CollectionInProgress);
        }
        proof {
            lemma_capacity_for(wanted);
            assert(type_size * count >= 0) by (nonlinear_arith);
        }
        let size: usize = match request_size(type_size, count) {
            Some(size) => size,
            None => {
                assert forall|i: int| 0 <= i < pre.used.len() implies !(
                #[trigger] pre.used[i]).fits(wanted) by {
                    assert(pre.admits(pre.blocks()[i]));
                }
                return Err(GcError::Exhausted);
            },
        };
        let n: usize = self.used_blocks.len();
        if n > 0 {
            assert(pre.admits(pre.blocks()[n - 1]));
            if let Some(address) = self.used_blocks[n - 1].try_allocate(size) {
                proof {
                    assert(self@.used =~= pre.after_allocate(wanted).used);
                    assert(self@.used =~= pre.used.update(n - 1, self@.used[n - 1]));
                    self@.lemma_replaced_used(pre, n - 1);
                }
                return Ok(address);
            }
            assert(self@.used =~= pre.used);
        }
        assert(self@ == pre);
        if size <= BLOCK_SIZE {
            if let Some(mut block) = self.free_blocks.pop() {
                let ghost recycled = block@;
                assert(recycled == pre.free.last());
                assert(pre.blocks()[pre.used.len() + pre.free.len() - 1] == recycled);
                assert(recycled.reset() == recycled);
                let address = block.try_allocate(size).unwrap();
                self.used_blocks.push(block);
                proof {
                    assert(self@.used =~= pre.after_allocate(wanted).used);
                    assert(self@.free =~= pre.after_allocate(wanted).free);
                    self@.lemma_recycled(pre, wanted);
                }
                return Ok(address);
            }
        }
        assert(pre.needs_block(wanted));
        let capacity: usize = match block_capacity(size) {
            Some(capacity) => capacity,
            None => {
                return Err(GcError::Exhausted);
            },
        };
        if capacity > isize::MAX as usize - self.frontier {
            return Err(GcError::Exhausted);
        }
        let mut block = Block::new(self.frontier, capacity);
        let address = block.try_allocate(size).unwrap();
        self.used_blocks.push(block);
        self.frontier = self.frontier + capacity;
        proof {
            assert(self@.used =~= pre.after_allocate(wanted).used);
            assert(self@.free =~= pre.free);
            self@.lemma_extended(pre, wanted);
        }
        Ok(address)
    }

    /// Gives `values` a place of their own in the arena, copies them there
    /// and returns a handle to the copy.  The place is found as for any
    /// request of that many bytes, and refused on the same grounds.
    pub fn alloc_slice(&mut self, values: &[u8], _flags: AllocFlags) -> (outcome: Result<
        GcRef,
        GcError,
    >)
        requires
            old(self).wf(),
        ensures
            final(self).wf(),
            final(self)@ == old(self)@.after_alloc_slice(values@),
            match old(self)@.allocated(values@.len()) {
                Ok(address) => outcome.is_ok() && outcome.unwrap()@ == (Span {
                    address: address as nat,
                    len: values@.len(),
                }) && final(self)@.holds(address as nat, values@.len()) && final(self)@.load(
                    address as nat,
                    values@.len(),
                ) == values@,
                Err(error) => outcome == Err::<GcRef, GcError>(error),
            },
    {
        let ghost pre = self@;
        let len: usize = values.len();
        assert(1 * len == len);
        let address: usize = match self.allocate(1, len) {
            Ok(address) => address,
            Err(error) => {
                return Err(error);
            },
        };
        let ghost placed = self@;
        let n: usize = self.used_blocks.len();
        proof {
            pre.lemma_allocated_in_use(len as nat);
            assert(placed.admits(placed.blocks()[n - 1]));
        }
        let stored = self.used_blocks[n - 1].write(address, values);
        proof {
            let post = self@;
            assert(stored);
            assert(post.used =~= pre.after_alloc_slice(values@).used);
            assert(post.used =~= placed.used.update(
                n - 1,
                placed.used[n - 1].store(address as nat, values@),
            ));
            assert(post.free =~= placed.free);
            assert(post == placed.with_block(
                n - 1,
                placed.blocks()[n - 1].store(address as nat, values@),
            ));
            placed.lemma_store_at(address as nat, values@, n - 1);
            assert(post.blocks()[n - 1].holds(address as nat, len as nat));
            post.lemma_load_at(address as nat, len as nat, n - 1);
            assert(post.blocks()[n - 1].load(address as nat, len as nat) =~= values@);
        }
        Ok(GcRef::new(address, len))
    }

    /// Opens a collection cycle: every block in use becomes a candidate for
    /// reclamation and joins the free blocks, cursor and contents untouched.
    /// Refused while a cycle is open.
    pub fn begin_collect(&mut self) -> (outcome: Result<(), GcError>)
        requires
            old(self).wf(),
        ensures
            final(self).wf(),
            old(self)@.marking ==> outcome == Err::<(), GcError>(GcError::CollectionInProgress)
                && final(self)@ == old(self)@,
            !old(self)@.marking ==> outcome.is_ok() && final(self)@ == old(self)@.begun(),
    {
        if self.marking {
            return Err(GcError::CollectionInProgress);
        }
        let n: usize = self.used_blocks.len();
        let mut i: usize = 0;
        while i < n
            invariant
                i <= n == self.used_blocks@.len(),
                self.free_blocks == old(self).free_blocks,
                self.marked_pointers == old(self).marked_pointers,
                self.frontier == old(self).frontier,
                !self.marking,
                forall|j: int|
                    0 <= j < i ==> (#[trigger] self.used_blocks@[j])@
                        == old(self).used_blocks@[j]@.condemned(),
                forall|j: int|
                    i <= j < n ==> (#[trigger] self.used_blocks@[j]) == old(self).used_blocks@[j],
            decreases n - i,
        {
            self.used_blocks[i].condemn();
            i = i + 1;
        }
        self.free_blocks.append(&mut self.used_blocks);
        self.marking = true;
        proof {
            let pre = old(self)@;
            assert(self@.used =~= pre.begun().used);
            assert(self@.free =~= pre.begun().free);
            pre.lemma_begun();
        }
        Ok(())
    }

    /// Marks an address as reachable in the open cycle.  Refused while no
    /// cycle is open.
    pub fn trace_ptr(&mut self, address: usize) -> (outcome: Result<(), GcError>)
        requires
            old(self).wf(),
        ensures
            final(self).wf(),
            old(self)@.marking ==> outcome.is_ok() && final(self)@ == old(self)@.traced(
                seq![address],
            ),
            !old(self)@.marking ==> outcome == Err::<(), GcError>(GcError::NoCollection)
                && final(self)@ == old(self)@,
    {
        if !self.marking {
            return Err(GcError::NoCollection);
        }
        self.marked_pointers.push(address);
        assert(self@.marks =~= old(self)@.marks + seq![address]);
        assert(self@.blocks() == old(self)@.blocks());
        Ok(())
    }

    /// Has the value report what it owns or refers to.  Refused, with the
    /// value not asked, while no cycle is open.  In an open cycle the value
    /// decides what is marked and what is returned.
    pub fn trace<T: Trace>(&mut self, object: &T) -> (outcome: Result<(), GcError>)
        requires
            old(self).wf(),
        ensures
            final(self).wf(),
            !old(self)@.marking ==> outcome == Err::<(), GcError>(GcError::NoCollection)
                && final(self)@ == old(self)@,
    {
        if !self.marking {
            return Err(GcError::NoCollection);
        }
        object.trace(self)
    }

    /// Closes the collection cycle with a sweep.
    ///
    /// Every candidate that holds at least one marked address returns to
    /// use, whole and untouched.  Every other block is reset and stays free.
    /// Afterwards both lists are in address order and no address is marked.
    /// A mark that lies in no block has no effect.  Refused while no cycle
    /// is open.
    pub fn end_collect(&mut self) -> (outcome: Result<(), GcError>)
        requires
            old(self).wf(),
        ensures
            final(self).wf(),
            old(self)@.marking ==> outcome.is_ok() && old(self)@.swept_to(final(self)@),
            !old(self)@.marking ==> outcome == Err::<(), GcError>(GcError::NoCollection)
                && final(self)@ == old(self)@,
    {
        if !self.marking {
            return Err(GcError::NoCollection);
        }
        let ghost pre = self@;
        let ghost unsorted = self.free_blocks@;
        sort_by_base(&mut self.free_blocks);
        sort_addresses(&mut self.marked_pointers);
        let ghost sorted = self.free_blocks@;
        let ghost marks = self.marked_pointers@;
        proof {
            assert(pre.blocks() =~= pre.free);
            assert forall|i: int| 0 <= i < unsorted.len() implies (#[trigger] unsorted[i])@.begin
                < unsorted[i]@.end by {
                assert(pre.admits(pre.blocks()[i]));
            }
            lemma_sorted_blocks(unsorted, sorted);
            assert forall|i: int| 0 <= i < sorted.len() implies (#[trigger] sorted[i])@.wf() by {
                assert(unsorted.contains(sorted[i]));
                let k = choose|k: int| 0 <= k < unsorted.len() && unsorted[k] == sorted[i];
                assert(pre.admits(pre.blocks()[k]));
            }
        }
        let mut candidates: Vec<Block> = Vec::new();
        std::mem::swap(&mut candidates, &mut self.free_blocks);
        let (mut kept, recycled) = sweep(candidates, &self.marked_pointers);
        self.used_blocks.append(&mut kept);
        self.free_blocks = recycled;
        self.marked_pointers.clear();
        self.marking = false;
        proof {
            let post = self@;
            lemma_sweep_parts(models(sorted), marks);
            lemma_reordering(pre.marks, marks);
            assert(post.used =~= retained(models(sorted), marks));
            assert(post.free =~= reclaimed(models(sorted), marks));
            assert forall|b: BlockModel|
                post.used.contains(b) <==> pre.free.contains(b) && marked(b, pre.marks) by {
                lemma_marked_by_members(b, pre.marks, marks);
            }
            assert forall|b: BlockModel|
                post.free.contains(b) <==> exists|c: BlockModel|
                    #[trigger] pre.free.contains(c) && !marked(c, pre.marks) && b == c.reset() by {
                if post.free.contains(b) {
                    let c = choose|c: BlockModel|
                        #[trigger] models(sorted).contains(c) && !marked(c, marks) && b
                            == c.reset();
                    lemma_marked_by_members(c, pre.marks, marks);
                    assert(pre.free.contains(c));
                }
                if exists|c: BlockModel|
                    #[trigger] pre.free.contains(c) && !marked(c, pre.marks) && b == c.reset() {
                    let c = choose|c: BlockModel|
                        #[trigger] pre.free.contains(c) && !marked(c, pre.marks) && b == c.reset();
                    lemma_marked_by_members(c, pre.marks, marks);
                    assert(models(sorted).contains(c));
                }
            }
            pre.lemma_swept(post);
        }
        Ok(())
    }

    /// The `len` bytes stored from `address` on, if some block holds them in
    /// the part of it that was handed out.
    pub fn load(&self, address: usize, len: usize) -> (bytes: Option<&[u8]>)
        requires
            self.wf(),
        ensures
            self@.holds(address as nat, len as nat) ==> bytes.is_some() && bytes.unwrap()@
                == self@.load(address as nat, len as nat),
            !self@.holds(address as nat, len as nat) ==> bytes.is_none(),
    {
        let ghost u = self@.used.len() as int;
        proof {
            self.lemma_blocks_wf();
        }
        match position(&self.used_blocks, address, len) {
            Some(i) => {
                proof {
                    self@.lemma_load_at(address as nat, len as nat, i as int);
                }
                return self.used_blocks[i].read(address, len);
            },
            None => {},
        }
        match position(&self.free_blocks, address, len) {
            Some(i) => {
                proof {
                    assert(self@.blocks()[u + i] == self@.free[i as int]);
                    self@.lemma_load_at(address as nat, len as nat, u + i);
                }
                self.free_blocks[i].read(address, len)
            },
            None => {
                assert forall|k: int| 0 <= k < self@.blocks().len() implies !(
                #[trigger] self@.blocks()[k]).holds(address as nat, len as nat) by {
                    if k >= u {
                        assert(self@.free[k - u] == self@.blocks()[k]);
                    }
                }
                None
            },
        }
    }

    /// Stores `values` from `address` on, if some block holds that many
    /// bytes there in the part of it that was handed out; otherwise nothing
    /// changes.
    pub fn store(&mut self, address: usize, values: &[u8]) -> (stored: bool)
        requires
            old(self).wf(),
        ensures
            final(self).wf(),
            stored == old(self)@.holds(address as nat, values@.len()),
            stored ==> final(self)@ == old(self)@.store(address as nat, values@),
            !stored ==> final(self)@ == old(self)@,
    {
        let ghost pre = self@;
        let ghost u = pre.used.len() as int;
        let len: usize = values.len();
        proof {
            self.lemma_blocks_wf();
        }
        match position(&self.used_blocks, address, len) {
            Some(i) => {
                let stored = self.used_blocks[i].write(address, values);
                proof {
                    pre.lemma_store_at(address as nat, values@, i as int);
                    assert(self@.used =~= pre.store(address as nat, values@).used);
                }
                return stored;
            },
            None => {},
        }
        match position(&self.free_blocks, address, len) {
            Some(i) => {
                let stored = self.free_blocks[i].write(address, values);
                proof {
                    assert(pre.blocks()[u + i] == pre.free[i as int]);
                    pre.lemma_store_at(address as nat, values@, u + i);
                    assert(self@.free =~= pre.store(address as nat, values@).free);
                }
                stored
            },
            None => {
                assert forall|k: int| 0 <= k < pre.blocks().len() implies !(
                #[trigger] pre.blocks()[k]).holds(address as nat, len as nat) by {
                    if k >= u {
                        assert(pre.free[k - u] == pre.blocks()[k]);
                    }
                }
                false
            },
        }
    }

    /// Whether a collection cycle is open.
    pub fn is_collecting(&self) -> (open: bool)
        ensures
            open == self@.marking,
    {
        self.marking
    }

    /// Number of blocks in use.
    pub fn used_count(&self) -> (count: usize)
        ensures
            count == self@.used.len(),
    {
        self.used_blocks.len()
    }

    /// Number of free blocks; during a cycle, the candidates are among them.
    pub fn free_count(&self) -> (count: usize)
        ensures
            count == self@.free.len(),
    {
        self.free_blocks.len()
    }

    /// Number of addresses marked in the open cycle.
    pub fn mark_count(&self) -> (count: usize)
        ensures
            count == self@.marks.len(),
    {
        self.marked_pointers.len()
    }

    /// The block in use at `index`, oldest first.
    pub fn used_block(&self, index: usize) -> (block: Option<&Block>)
        ensures
            index < self@.used.len() ==> block.is_some() && block.unwrap()@
                == self@.used[index as int],
            index >= self@.used.len() ==> block.is_none(),
    {
        if index < self.used_blocks.len() {
            Some(&self.used_blocks[index])
        } else {
            None
        }
    }

    /// The free block at `index`.
    pub fn free_block(&self, index: usize) -> (block: Option<&Block>)
        ensures
            index < self@.free.len() ==> block.is_some() && block.unwrap()@
                == self@.free[index as int],
            index >= self@.free.len() ==> block.is_none(),
    {
        if index < self.free_blocks.len() {
            Some(&self.free_blocks[index])
        } else {
            None
        }
    }

    /// Every block that the collector holds is well formed.
    proof fn lemma_blocks_wf(&self)
        requires
            self.wf(),
        ensures
            forall|i: int|
                0 <= i < self.used_blocks@.len() ==> (#[trigger] self.used_blocks@[i])@.wf(),
            forall|i: int|
                0 <= i < self.free_blocks@.len() ==> (#[trigger] self.free_blocks@[i])@.wf(),
    {
        let u = self@.used.len() as int;
        assert forall|i: int| 0 <= i < self.used_blocks@.len() implies (
        #[trigger] self.used_blocks@[i])@.wf() by {
            assert(self@.admits(self@.blocks()[i]));
        }
        assert forall|i: int| 0 <= i < self.free_blocks@.len() implies (
        #[trigger] self.free_blocks@[i])@.wf() by {
            assert(self@.admits(self@.blocks()[u + i]));
        }
    }
}

/// Position of the first of the blocks that holds `len` bytes from `address`
/// on, in the part of it that was handed out.
fn position(blocks: &Vec<Block>, address: usize, len: usize) -> (found: Option<usize>)
    requires
        forall|i: int| 0 <= i < blocks@.len() ==> (#[trigger] blocks@[i])@.wf(),
    ensures
        match found {
            Some(i) => i < blocks@.len() && blocks@[i as int]@.holds(address as nat, len as nat),
            None => forall|i: int|
                0 <= i < blocks@.len() ==> !(#[trigger] blocks@[i])@.holds(
                address as nat,
                len as nat,
            ),
        },
{
    let mut i: usize = 0;
    while i < blocks.len()
        invariant
            i <= blocks@.len(),
            forall|k: int| 0 <= k < blocks@.len() ==> (#[trigger] blocks@[k])@.wf(),
            forall|k: int|
                0 <= k < i ==> !(#[trigger] blocks@[k])@.holds(address as nat, len as nat),
        decreases blocks@.len() - i,
    {
        if blocks[i].holds(address, len) {
            return Some(i);
        }
        i = i + 1;
    }
    None
}

} // verus!
