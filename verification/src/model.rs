//! The collector's mathematical model: what the arena holds, what each
//! operation makes of it, and why each one keeps the arena's invariant.

use crate::block::BlockModel;
use crate::gc::GcError;
use crate::layout::{address_limit, capacity_for, lemma_capacity_for, BLOCK_SIZE};
use crate::order::{ordered, pairwise_disjoint};
use crate::sweep::marked;
use vstd::prelude::*;

verus! {

/// What a collector is, mathematically.
pub struct GcModel {
    /// Blocks in use, oldest first.  Only the last one is filled.
    pub used: Seq<BlockModel>,
    /// Recycled blocks and, during a cycle, the candidates for reclamation.
    pub free: Seq<BlockModel>,
    /// Addresses marked in the open cycle, in the order they were reported.
    pub marks: Seq<usize>,
    /// Whether a collection cycle is open.
    pub marking: bool,
    /// First address that no block has been given yet.
    pub frontier: nat,
}

impl GcModel {
    /// Every block of the arena: those in use, then the others.
    pub open spec fn blocks(self) -> Seq<BlockModel> {
        self.used + self.free
    }

    /// Some block of the arena spans the addresses from `begin` up to `end`.
    pub open spec fn has_range(self, begin: nat, end: nat) -> bool {
        exists|i: int|
            0 <= i < self.blocks().len() && (#[trigger] self.blocks()[i]).begin == begin
                && self.blocks()[i].end == end
    }

    /// A block as the arena holds it: at least of the default capacity,
    /// aligned to the default capacity at both ends, and between the first
    /// block's start and the frontier.
    pub open spec fn admits(self, block: BlockModel) -> bool {
        &&& block.wf()
        &&& block.capacity() >= BLOCK_SIZE
        &&& block.begin % (BLOCK_SIZE as nat) == 0
        &&& block.end % (BLOCK_SIZE as nat) == 0
        &&& BLOCK_SIZE <= block.begin
        &&& block.end <= self.frontier
    }

    /// The arena's invariant.  No two blocks overlap, and each is aligned to
    /// the default capacity.  Outside a cycle no address is marked and every
    /// free block is reset; during a cycle no block is in use.
    pub open spec fn wf(self) -> bool {
        &&& BLOCK_SIZE <= self.frontier <= address_limit()
        &&& self.frontier % (BLOCK_SIZE as nat) == 0
        &&& forall|i: int| 0 <= i < self.blocks().len() ==> self.admits(#[trigger] self.blocks()[i])
        &&& pairwise_disjoint(self.blocks())
        &&& self.marking ==> self.used.len() == 0
        &&& !self.marking ==> self.marks.len() == 0
        &&& !self.marking ==> forall|i: int|
            0 <= i < self.free.len() ==> (#[trigger] self.free[i]).reset() == self.free[i]
    }

    /// A collector as it is created: one empty block of the default capacity
    /// in use, none free, no cycle open.
    pub open spec fn initial() -> GcModel {
        GcModel {
            used: seq![BlockModel::fresh(BLOCK_SIZE as nat, BLOCK_SIZE as nat)],
            free: Seq::empty(),
            marks: Seq::empty(),
            marking: false,
            frontier: 2 * BLOCK_SIZE as nat,
        }
    }

    /// The request is served by the block that is being filled.
    pub open spec fn fits_current(self, size: nat) -> bool {
        self.used.len() > 0 && self.used.last().fits(size)
    }

    /// The request is served by a block taken from the free ones.
    pub open spec fn recycles(self, size: nat) -> bool {
        !self.fits_current(size) && size <= BLOCK_SIZE && self.free.len() > 0
    }

    /// The request needs a block that does not exist yet.
    pub open spec fn needs_block(self, size: nat) -> bool {
        !self.fits_current(size) && !self.recycles(size)
    }

    /// A new block for the request would end beyond the address limit.
    pub open spec fn exhausted_by(self, size: nat) -> bool {
        self.needs_block(size) && self.frontier + capacity_for(size) > address_limit()
    }

    /// What a request for `size` bytes returns: the address of the bytes, or
    /// why there are none.
    pub open spec fn allocated(self, size: nat) -> Result<usize, GcError> {
        if self.marking {
            Err(GcError::CollectionInProgress)
        } else if self.fits_current(size) {
            Ok(self.used.last().cursor as usize)
        } else if self.recycles(size) {
            Ok(self.free.last().begin as usize)
        } else if self.exhausted_by(size) {
            Err(GcError::Exhausted)
        } else {
            Ok(self.frontier as usize)
        }
    }

    /// The state after a request for `size` bytes.  Served from the block
    /// that is being filled if they fit there; else from the free block that
    /// was recycled last, for an ordinary size; else from a new block.  A
    /// refused request changes nothing.
    pub open spec fn after_allocate(self, size: nat) -> GcModel {
        if self.marking || self.exhausted_by(size) {
            self
        } else if self.fits_current(size) {
            GcModel { used: self.used.drop_last().push(self.used.last().bump(size)), ..self }
        } else if self.recycles(size) {
            GcModel {
                used: self.used.push(self.free.last().bump(size)),
                free: self.free.drop_last(),
                ..self
            }
        } else {
            GcModel {
                used: self.used.push(
                    BlockModel::fresh(self.frontier, capacity_for(size)).bump(size),
                ),
                frontier: self.frontier + capacity_for(size),
                ..self
            }
        }
    }

    /// The state after the addresses were marked, in their order.
    pub open spec fn traced(self, addresses: Seq<usize>) -> GcModel {
        GcModel { marks: self.marks + addresses, ..self }
    }

    /// `post` is what a sweep makes of this state.  The candidates that hold
    /// a marked address are in use, unchanged; all others are free, and
    /// reset.  Both lists are in address order.  No mark is left and no
    /// cycle is open.
    pub open spec fn swept_to(self, post: GcModel) -> bool {
        &&& !post.marking
        &&& post.marks.len() == 0
        &&& post.frontier == self.frontier
        &&& ordered(post.used)
        &&& ordered(post.free)
        &&& forall|b: BlockModel|
            post.used.contains(b) <==> self.free.contains(b) && marked(b, self.marks)
        &&& forall|b: BlockModel|
            post.free.contains(b) <==> exists|c: BlockModel|
                #[trigger] self.free.contains(c) && !marked(c, self.marks) && b == c.reset()
    }

    /// The state after a cycle was opened: every block that was in use is a
    /// candidate now, behind the blocks that were free already.
    pub open spec fn begun(self) -> GcModel {
        GcModel {
            used: Seq::empty(),
            free: self.free + self.used.map_values(|b: BlockModel| b.condemned()),
            marking: true,
            ..self
        }
    }
}

impl GcModel {
    /// Changing the cursor of one block in use keeps the invariant.
    pub proof fn lemma_replaced_used(self, pre: GcModel, index: int)
        requires
            pre.wf(),
            !pre.marking,
            0 <= index < pre.used.len(),
            self.used.len() == pre.used.len(),
            self.used == pre.used.update(index, self.used[index]),
            self.used[index].wf(),
            self.used[index].begin == pre.used[index].begin,
            self.used[index].end == pre.used[index].end,
            self.free == pre.free,
            self.marks == pre.marks,
            self.marking == pre.marking,
            self.frontier == pre.frontier,
        ensures
            self.wf(),
    {
        assert forall|i: int| 0 <= i < self.blocks().len() implies self.admits(
            #[trigger] self.blocks()[i],
        ) by {
            assert(pre.admits(pre.blocks()[i]));
        }
        let all = self.blocks();
        assert forall|a: int, b: int|
            0 <= a < all.len() && 0 <= b < all.len() && a != b implies all[a].disjoint(all[b]) by {
            assert(pre.blocks()[a].disjoint(pre.blocks()[b]));
        }
    }

    /// Moving the last free block into use keeps the invariant.
    pub proof fn lemma_recycled(self, pre: GcModel, size: nat)
        requires
            pre.wf(),
            !pre.marking,
            pre.recycles(size),
            self == pre.after_allocate(size),
        ensures
            self.wf(),
    {
        let u = pre.used.len() as int;
        let f = pre.free.len() as int;
        let origin = |i: int| if i < u { i } else if i == u { u + f - 1 } else { i - 1 };
        assert(pre.admits(pre.blocks()[u + f - 1]));
        assert(pre.free.last().reset() == pre.free.last());
        assert forall|i: int| 0 <= i < self.blocks().len() implies self.admits(
            #[trigger] self.blocks()[i],
        ) by {
            assert(pre.admits(pre.blocks()[origin(i)]));
        }
        let all = self.blocks();
        assert forall|a: int, b: int|
            0 <= a < all.len() && 0 <= b < all.len() && a != b implies all[a].disjoint(all[b]) by {
            assert(pre.blocks()[origin(a)].disjoint(pre.blocks()[origin(b)]));
        }
        assert forall|i: int| 0 <= i < self.free.len() implies (#[trigger] self.free[i]).reset()
            == self.free[i] by {
            assert(pre.free[i].reset() == pre.free[i]);
        }
    }

    /// Putting a new block in use at the frontier keeps the invariant.
    pub proof fn lemma_extended(self, pre: GcModel, size: nat)
        requires
            pre.wf(),
            !pre.marking,
            pre.needs_block(size),
            !pre.exhausted_by(size),
            self == pre.after_allocate(size),
        ensures
            self.wf(),
    {
        lemma_capacity_for(size);
        let u = pre.used.len() as int;
        let origin = |i: int| if i < u { i } else { i - 1 };
        assert forall|i: int| 0 <= i < self.blocks().len() implies self.admits(
            #[trigger] self.blocks()[i],
        ) by {
            if i != u {
                assert(pre.admits(pre.blocks()[origin(i)]));
            }
        }
        let all = self.blocks();
        assert forall|a: int, b: int|
            0 <= a < all.len() && 0 <= b < all.len() && a != b implies all[a].disjoint(all[b]) by {
            if a != u && b != u {
                assert(pre.blocks()[origin(a)].disjoint(pre.blocks()[origin(b)]));
            } else if a == u {
                assert(pre.admits(pre.blocks()[origin(b)]));
            } else {
                assert(pre.admits(pre.blocks()[origin(a)]));
            }
        }
        assert forall|i: int| 0 <= i < self.free.len() implies (#[trigger] self.free[i]).reset()
            == self.free[i] by {
            assert(pre.free[i].reset() == pre.free[i]);
        }
    }

    /// A sweep keeps the invariant.
    pub proof fn lemma_swept(self, post: GcModel)
        requires
            self.wf(),
            self.marking,
            self.swept_to(post),
        ensures
            post.wf(),
    {
        assert(self.blocks() =~= self.free);
        let u = post.used.len() as int;
        assert forall|i: int| 0 <= i < post.blocks().len() implies post.admits(
            #[trigger] post.blocks()[i],
        ) by {
            if i < u {
                assert(post.used.contains(post.used[i]));
                let c = post.used[i];
                let k = choose|k: int| 0 <= k < self.free.len() && self.free[k] == c;
                assert(self.admits(self.blocks()[k]));
            } else {
                assert(post.free.contains(post.free[i - u]));
                let c = choose|c: BlockModel|
                    #[trigger] self.free.contains(c) && !marked(c, self.marks) && post.free[i - u]
                        == c.reset();
                let k = choose|k: int| 0 <= k < self.free.len() && self.free[k] == c;
                assert(self.admits(self.blocks()[k]));
            }
        }
        let all = post.blocks();
        assert forall|a: int, b: int|
            0 <= a < all.len() && 0 <= b < all.len() && a != b implies all[a].disjoint(all[b]) by {
            if a < u && b < u {
                if a < b {
                    assert(post.used[a].end <= post.used[b].begin);
                } else {
                    assert(post.used[b].end <= post.used[a].begin);
                }
            } else if a >= u && b >= u {
                if a < b {
                    assert(post.free[a - u].end <= post.free[b - u].begin);
                } else {
                    assert(post.free[b - u].end <= post.free[a - u].begin);
                }
            } else {
                let (x, y) = if a < u { (a, b - u) } else { (b, a - u) };
                assert(post.used.contains(post.used[x]));
                assert(post.free.contains(post.free[y]));
                let kept = post.used[x];
                let c = choose|c: BlockModel|
                    #[trigger] self.free.contains(c) && !marked(c, self.marks) && post.free[y]
                        == c.reset();
                let i = choose|i: int| 0 <= i < self.free.len() && self.free[i] == kept;
                let j = choose|j: int| 0 <= j < self.free.len() && self.free[j] == c;
                assert(self.blocks()[i].disjoint(self.blocks()[j]));
            }
        }
        assert forall|i: int| 0 <= i < post.free.len() implies (#[trigger] post.free[i]).reset()
            == post.free[i] by {
            assert(post.free.contains(post.free[i]));
        }
    }
}

impl GcModel {
    /// Some block holds `len` bytes from `address` on, in the part of it
    /// that was handed out.
    pub open spec fn holds(self, address: nat, len: nat) -> bool {
        exists|i: int|
            0 <= i < self.blocks().len() && (#[trigger] self.blocks()[i]).holds(address, len)
    }

    /// Position, among all blocks, of a block that holds the bytes.
    pub open spec fn holder(self, address: nat, len: nat) -> int {
        choose|i: int|
            0 <= i < self.blocks().len() && (#[trigger] self.blocks()[i]).holds(address, len)
    }

    /// The `len` bytes stored from `address` on.
    pub open spec fn load(self, address: nat, len: nat) -> Seq<u8> {
        self.blocks()[self.holder(address, len)].load(address, len)
    }

    /// The state with one block replaced, by its position among all blocks.
    pub open spec fn with_block(self, index: int, block: BlockModel) -> GcModel {
        if index < self.used.len() {
            GcModel { used: self.used.update(index, block), ..self }
        } else {
            GcModel { free: self.free.update(index - self.used.len(), block), ..self }
        }
    }

    /// The state with `values` stored from `address` on.
    pub open spec fn store(self, address: nat, values: Seq<u8>) -> GcModel {
        let h = self.holder(address, values.len());
        self.with_block(h, self.blocks()[h].store(address, values))
    }

    /// The state after `values` were given a place of their own and copied
    /// there.  A refused request changes nothing.
    pub open spec fn after_alloc_slice(self, values: Seq<u8>) -> GcModel {
        let placed = self.after_allocate(values.len());
        match self.allocated(values.len()) {
            Ok(address) => GcModel {
                used: placed.used.drop_last().push(
                    placed.used.last().store(address as nat, values),
                ),
                ..placed
            },
            Err(_) => self,
        }
    }

    /// One block at most holds a given byte.
    pub proof fn lemma_one_holder(self, address: nat, len: nat, i: int, j: int)
        requires
            self.wf(),
            len > 0,
            0 <= i < self.blocks().len(),
            0 <= j < self.blocks().len(),
            self.blocks()[i].holds(address, len),
            self.blocks()[j].holds(address, len),
        ensures
            i == j,
    {
        assert(self.admits(self.blocks()[i]));
        assert(self.admits(self.blocks()[j]));
        if i != j {
            assert(self.blocks()[i].disjoint(self.blocks()[j]));
        }
    }

    /// What is loaded does not depend on which holder was found.
    pub proof fn lemma_load_at(self, address: nat, len: nat, i: int)
        requires
            self.wf(),
            0 <= i < self.blocks().len(),
            self.blocks()[i].holds(address, len),
        ensures
            self.holds(address, len),
            self.load(address, len) == self.blocks()[i].load(address, len),
    {
        let h = self.holder(address, len);
        if len > 0 {
            self.lemma_one_holder(address, len, i, h);
        } else {
            assert(self.admits(self.blocks()[i]));
            assert(self.admits(self.blocks()[h]));
            assert(self.blocks()[h].load(address, len) =~= self.blocks()[i].load(address, len));
        }
    }

    /// What a store leaves does not depend on which holder was found, and
    /// the invariant is kept.
    pub proof fn lemma_store_at(self, address: nat, values: Seq<u8>, i: int)
        requires
            self.wf(),
            0 <= i < self.blocks().len(),
            self.blocks()[i].holds(address, values.len()),
        ensures
            self.holds(address, values.len()),
            self.store(address, values) == self.with_block(
                i,
                self.blocks()[i].store(address, values),
            ),
            self.store(address, values).wf(),
    {
        let h = self.holder(address, values.len());
        let post = self.with_block(i, self.blocks()[i].store(address, values));
        if values.len() > 0 {
            self.lemma_one_holder(address, values.len(), i, h);
        } else {
            assert(self.blocks()[i].store(address, values).bytes =~= self.blocks()[i].bytes);
            assert(self.blocks()[h].store(address, values).bytes =~= self.blocks()[h].bytes);
            assert(self.with_block(i, self.blocks()[i]).used =~= self.used);
            assert(self.with_block(i, self.blocks()[i]).free =~= self.free);
            assert(self.with_block(h, self.blocks()[h]).used =~= self.used);
            assert(self.with_block(h, self.blocks()[h]).free =~= self.free);
        }
        assert(post.blocks() =~= self.blocks().update(i, self.blocks()[i].store(address, values)));
        assert forall|k: int| 0 <= k < post.blocks().len() implies post.admits(
            #[trigger] post.blocks()[k],
        ) by {
            assert(self.admits(self.blocks()[k]));
        }
        let all = post.blocks();
        assert forall|a: int, b: int|
            0 <= a < all.len() && 0 <= b < all.len() && a != b implies all[a].disjoint(all[b]) by {
            assert(self.blocks()[a].disjoint(self.blocks()[b]));
        }
        if !self.marking {
            assert forall|k: int| 0 <= k < post.free.len() implies (#[trigger] post.free[k]).reset()
                == post.free[k] by {
                assert(self.free[k].reset() == self.free[k]);
            }
        }
    }
}

impl GcModel {
    /// The bytes of a served request lie at the end of what the last block
    /// in use has handed out, and the address has the value it is given as.
    pub proof fn lemma_allocated_in_use(self, size: nat)
        requires
            self.wf(),
            self.allocated(size).is_ok(),
        ensures
            self.after_allocate(size).used.len() > 0,
            self.after_allocate(size).used.last().holds(self.allocated(size).unwrap() as nat, size),
            self.after_allocate(size).used.last().cursor == self.allocated(size).unwrap() + size,
            self.allocated(size).unwrap() + size <= address_limit(),
            BLOCK_SIZE <= self.allocated(size).unwrap(),
    {
        lemma_capacity_for(size);
        let u = self.used.len() as int;
        if self.fits_current(size) {
            assert(self.admits(self.blocks()[u - 1]));
        } else if self.recycles(size) {
            assert(self.admits(self.blocks()[u + self.free.len() - 1]));
            assert(self.free.last().reset() == self.free.last());
        }
    }
}

impl GcModel {
    /// Opening a cycle keeps the invariant, and so does marking.
    pub proof fn lemma_begun(self)
        requires
            self.wf(),
            !self.marking,
        ensures
            self.begun().wf(),
            forall|marks: Seq<usize>| (#[trigger] self.begun().traced(marks)).wf(),
    {
        let open = self.begun();
        let all = self.blocks();
        let u = self.used.len() as int;
        let f = self.free.len() as int;
        let origin = |i: int| if i < f { u + i } else { i - f };
        assert(open.blocks() =~= open.free);
        assert forall|i: int| 0 <= i < open.blocks().len() implies open.admits(
            #[trigger] open.blocks()[i],
        ) by {
            assert(self.admits(all[origin(i)]));
        }
        assert forall|a: int, b: int|
            0 <= a < open.blocks().len() && 0 <= b < open.blocks().len() && a != b implies (
        #[trigger] open.blocks()[a]).disjoint(#[trigger] open.blocks()[b]) by {
            assert(all[origin(a)].disjoint(all[origin(b)]));
        }
        assert forall|marks: Seq<usize>| (#[trigger] open.traced(marks)).wf() by {
            assert(open.traced(marks).blocks() == open.blocks());
        }
    }
}

} // verus!
