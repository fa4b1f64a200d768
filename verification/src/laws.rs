//! Laws of the arena: properties that hold of every state and every request,
//! proved from the model that the collector's contracts are stated over.

use crate::block::BlockModel;
use crate::gc::GcError;
use crate::layout::{capacity_for, is_power_of_two, lemma_capacity_for, BLOCK_SIZE};
use crate::model::GcModel;
use crate::order::lemma_ordered_unique;
use crate::sweep::marked;
use vstd::prelude::*;

verus! {

impl BlockModel {
    /// The block after `n` requests of `size` bytes each were served by it.
    pub open spec fn bumped(self, size: nat, n: nat) -> BlockModel
        decreases n,
    {
        if n == 0 {
            self
        } else {
            self.bumped(size, (n - 1) as nat).bump(size)
        }
    }
}

impl GcModel {
    /// The state after `n` requests of `size` bytes each.
    pub open spec fn repeated(self, size: nat, n: nat) -> GcModel
        decreases n,
    {
        if n == 0 {
            self
        } else {
            self.repeated(size, (n - 1) as nat).after_allocate(size)
        }
    }
}

/// Bump allocation in a block: while `n` requests of `size` bytes fit, each
/// one fits, and the `i`-th gets the address `i * size` bytes past the first.
pub proof fn lemma_block_bump_sequence(block: BlockModel, size: nat, n: nat, i: nat)
    requires
        block.wf(),
        block.cursor + n * size <= block.end,
        i < n,
    ensures
        block.bumped(size, i).wf(),
        block.bumped(size, i).fits(size),
        block.bumped(size, i).cursor == block.cursor + i * size,
        block.bumped(size, i) == (BlockModel { cursor: block.cursor + i * size, ..block }),
    decreases i,
{
    assert((i + 1) * size <= n * size) by (nonlinear_arith)
        requires
            i + 1 <= n,
    ;
    assert((i + 1) * size == i * size + size) by (nonlinear_arith);
    assert(i * size >= 0) by (nonlinear_arith);
    if i > 0 {
        let before = block.bumped(size, (i - 1) as nat);
        lemma_block_bump_sequence(block, size, n, (i - 1) as nat);
        assert(i * size == (i - 1) * size + size) by (nonlinear_arith);
        assert(block.bumped(size, i) == before.bump(size));
        assert(before.cursor == block.cursor + (i - 1) * size);
    } else {
        assert(i * size == 0) by (nonlinear_arith)
            requires
                i == 0,
        ;
        assert(block.bumped(size, i) == block);
    }
}

/// Bump monotonicity.  While the block that is being filled has room for `n`
/// requests of `size` bytes, the `i`-th of them is served at `i * size`
/// bytes past the first, and changes nothing but that block's cursor.
pub proof fn lemma_bump_sequence(gc: GcModel, size: nat, n: nat, i: nat)
    requires
        gc.wf(),
        !gc.marking,
        gc.used.len() > 0,
        gc.used.last().cursor + n * size <= gc.used.last().end,
        i < n,
    ensures
        gc.repeated(size, i).wf(),
        gc.repeated(size, i) == (GcModel {
            used: gc.used.drop_last().push(gc.used.last().bumped(size, i)),
            ..gc
        }),
        gc.repeated(size, i).allocated(size) == Ok::<usize, GcError>(
            (gc.used.last().cursor + i * size) as usize,
        ),
    decreases i,
{
    let current = gc.used.last();
    assert(gc.admits(gc.blocks()[gc.used.len() - 1]));
    lemma_block_bump_sequence(current, size, n, i);
    if i == 0 {
        assert(gc.used.drop_last().push(current) =~= gc.used);
    } else {
        let before = gc.repeated(size, (i - 1) as nat);
        lemma_bump_sequence(gc, size, n, (i - 1) as nat);
        lemma_block_bump_sequence(current, size, n, (i - 1) as nat);
        assert(before.fits_current(size));
        let after = before.after_allocate(size);
        assert(after.used =~= gc.used.drop_last().push(current.bumped(size, i)));
        assert(after.used =~= before.used.update(gc.used.len() - 1, after.used[gc.used.len() - 1]));
        after.lemma_replaced_used(before, gc.used.len() - 1);
    }
}

/// Addresses handed out one after another by the same block are distinct,
/// ascend, and lie `size` bytes apart.
pub proof fn lemma_bump_addresses(gc: GcModel, size: nat, n: nat, i: nat, j: nat)
    requires
        gc.wf(),
        !gc.marking,
        gc.used.len() > 0,
        gc.used.last().cursor + n * size <= gc.used.last().end,
        i < j < n,
    ensures
        gc.repeated(size, i).allocated(size).is_ok(),
        gc.repeated(size, j).allocated(size).is_ok(),
        gc.repeated(size, j).allocated(size).unwrap() == gc.repeated(size, i).allocated(
            size,
        ).unwrap() + (j - i) * size,
        j == i + 1 ==> gc.repeated(size, j).allocated(size).unwrap() == gc.repeated(
            size,
            i,
        ).allocated(size).unwrap() + size,
        size > 0 ==> gc.repeated(size, i).allocated(size).unwrap() < gc.repeated(
            size,
            j,
        ).allocated(size).unwrap(),
{
    lemma_bump_sequence(gc, size, n, i);
    lemma_bump_sequence(gc, size, n, j);
    assert(gc.admits(gc.blocks()[gc.used.len() - 1]));
    assert(j * size == i * size + (j - i) * size) by (nonlinear_arith);
    assert(j == i + 1 ==> (j - i) * size == size) by (nonlinear_arith);
    assert((j + 1) * size <= n * size) by (nonlinear_arith)
        requires
            j + 1 <= n,
    ;
    assert((j + 1) * size == j * size + size) by (nonlinear_arith);
    assert(i * size >= 0) by (nonlinear_arith);
    assert(size > 0 ==> (j - i) * size > 0) by (nonlinear_arith)
        requires
            j > i,
    ;
}

/// Oversized carve-out.  A request above the default capacity that the
/// block being filled cannot serve is served at the start of a new block
/// whenever the address space has room for it.  That block's capacity is
/// the smallest power of two that holds the request.
pub proof fn lemma_oversized_block(gc: GcModel, size: nat)
    requires
        gc.wf(),
        !gc.marking,
        size > BLOCK_SIZE,
        !gc.fits_current(size),
        !gc.exhausted_by(size),
    ensures
        gc.allocated(size) == Ok::<usize, GcError>(gc.frontier as usize),
        gc.after_allocate(size).wf(),
        gc.after_allocate(size).used.len() == gc.used.len() + 1,
        gc.after_allocate(size).used.last().begin == gc.frontier,
        gc.after_allocate(size).used.last().capacity() == capacity_for(size),
        is_power_of_two(capacity_for(size)),
        capacity_for(size) >= size,
        forall|q: nat| is_power_of_two(q) && q >= size ==> capacity_for(size) <= q,
{
    lemma_capacity_for(size);
    gc.after_allocate(size).lemma_extended(gc, size);
}

/// Retention.  Take any state outside a cycle, open a cycle, mark any
/// addresses and sweep.  A block that was in use and holds a marked address
/// is in use afterwards, cursor and contents untouched.  A block that was
/// in use and holds none is free afterwards, with its cursor at its start,
/// and is not in use.
pub proof fn lemma_retention(idle: GcModel, marks: Seq<usize>, post: GcModel, block: BlockModel)
    requires
        idle.wf(),
        !idle.marking,
        idle.used.contains(block),
        idle.begun().traced(marks).swept_to(post),
    ensures
        post.wf(),
        marked(block, marks) ==> post.used.contains(block.condemned()),
        !marked(block, marks) ==> post.free.contains(block.reset()) && block.reset().cursor
            == block.begin && forall|other: BlockModel|
            post.used.contains(other) ==> other.begin != block.begin,
{
    let open = idle.begun().traced(marks);
    idle.lemma_begun();
    assert(open.marks =~= marks);
    let i = choose|i: int| 0 <= i < idle.used.len() && idle.used[i] == block;
    let candidate = block.condemned();
    assert(open.free[idle.free.len() + i] == candidate);
    assert(open.free.contains(candidate));
    assert(marked(candidate, marks) == marked(block, marks)) by {
        if marked(block, marks) {
            let k = choose|k: int|
                0 <= k < marks.len() && block.contains(#[trigger] marks[k] as nat);
            assert(candidate.contains(marks[k] as nat));
        }
        if marked(candidate, marks) {
            let k = choose|k: int|
                0 <= k < marks.len() && candidate.contains(#[trigger] marks[k] as nat);
            assert(block.contains(marks[k] as nat));
        }
    }
    open.lemma_swept(post);
    if !marked(block, marks) {
        assert(candidate.reset() == block.reset());
        assert(post.free.contains(block.reset()));
        let f = choose|f: int| 0 <= f < post.free.len() && post.free[f] == block.reset();
        assert(idle.admits(idle.blocks()[i]));
        assert forall|other: BlockModel| post.used.contains(other) implies other.begin
            != block.begin by {
            let u = choose|u: int| 0 <= u < post.used.len() && post.used[u] == other;
            assert(post.blocks()[u] == other);
            assert(post.blocks()[post.used.len() + f] == block.reset());
            assert(post.admits(post.blocks()[u]));
            assert(post.blocks()[u].disjoint(post.blocks()[post.used.len() + f]));
        }
    }
}

/// Idempotent reset.  Whatever two blocks of the same range have handed
/// out, once reset they are filled alike: the next request is served at the
/// start of the range, if it fits the range at all.
pub proof fn lemma_reset_forgets(first: BlockModel, second: BlockModel, size: nat)
    requires
        first.wf(),
        second.wf(),
        first.begin == second.begin,
        first.end == second.end,
    ensures
        first.reset().wf(),
        first.reset().cursor == first.begin,
        first.reset().cursor == second.reset().cursor,
        first.reset().fits(size) == (size <= first.capacity()),
        first.reset().fits(size) == second.reset().fits(size),
        first.reset().reset() == first.reset(),
{
}

/// A recycled block is filled from its start: an ordinary request that the
/// block being filled cannot serve goes to the first address of the free
/// block recycled last, and no block is created.
pub proof fn lemma_recycled_from_base(gc: GcModel, size: nat)
    requires
        gc.wf(),
        !gc.marking,
        !gc.fits_current(size),
        size <= BLOCK_SIZE,
        gc.free.len() > 0,
    ensures
        gc.allocated(size) == Ok::<usize, GcError>(gc.free.last().begin as usize),
        gc.after_allocate(size).wf(),
        gc.after_allocate(size).used.last().begin == gc.free.last().begin,
        gc.after_allocate(size).used.last().cursor == gc.free.last().begin + size,
        gc.after_allocate(size).frontier == gc.frontier,
        gc.after_allocate(size).blocks().len() == gc.blocks().len(),
{
    gc.after_allocate(size).lemma_recycled(gc, size);
    assert(gc.free.last().reset() == gc.free.last());
}

/// Blocks with disjoint ranges never both contain an address.
pub proof fn lemma_disjoint_blocks(first: BlockModel, second: BlockModel, address: nat)
    requires
        first.disjoint(second),
        first.begin <= first.end,
        second.begin <= second.end,
    ensures
        !(first.contains(address) && second.contains(address)),
{
}

/// No cross-block leakage.  Of all the blocks of an arena, one at most
/// contains a given address.
pub proof fn lemma_one_owner(gc: GcModel, address: nat, i: int, j: int)
    requires
        gc.wf(),
        0 <= i < gc.blocks().len(),
        0 <= j < gc.blocks().len(),
        gc.blocks()[i].contains(address),
        gc.blocks()[j].contains(address),
    ensures
        i == j,
{
    if i != j {
        assert(gc.blocks()[i].disjoint(gc.blocks()[j]));
    }
}

/// The address of a served request of at least one byte lies in exactly one
/// block of the arena: the last one in use.
pub proof fn lemma_allocated_owner(gc: GcModel, size: nat, i: int)
    requires
        gc.wf(),
        size > 0,
        gc.allocated(size).is_ok(),
        0 <= i < gc.after_allocate(size).blocks().len(),
    ensures
        gc.after_allocate(size).wf(),
        gc.after_allocate(size).used.len() > 0,
        gc.after_allocate(size).blocks()[i].contains(gc.allocated(size).unwrap() as nat) <==> i
            == gc.after_allocate(size).used.len() - 1,
{
    let post = gc.after_allocate(size);
    let address = gc.allocated(size).unwrap() as nat;
    gc.lemma_allocated_in_use(size);
    lemma_after_allocate(gc, size);
    let last = post.used.len() - 1;
    assert(post.admits(post.blocks()[last]));
    assert(post.blocks()[last].contains(address));
    if post.blocks()[i].contains(address) {
        lemma_one_owner(post, address, i, last);
    }
}

/// Every request, served or refused, keeps the invariant and every block:
/// a range that a block of the arena had is still the range of one.
pub proof fn lemma_after_allocate(gc: GcModel, size: nat)
    requires
        gc.wf(),
    ensures
        gc.after_allocate(size).wf(),
        forall|begin: nat, end: nat|
            gc.has_range(begin, end) ==> gc.after_allocate(size).has_range(begin, end),
{
    let post = gc.after_allocate(size);
    let u = gc.used.len() as int;
    let f = gc.free.len() as int;
    if gc.marking || gc.exhausted_by(size) {
    } else if gc.fits_current(size) {
        assert(gc.admits(gc.blocks()[u - 1]));
        assert(post.used =~= gc.used.update(u - 1, post.used[u - 1]));
        post.lemma_replaced_used(gc, u - 1);
    } else if gc.recycles(size) {
        post.lemma_recycled(gc, size);
    } else {
        post.lemma_extended(gc, size);
    }
    assert forall|begin: nat, end: nat| gc.has_range(begin, end) implies post.has_range(
        begin,
        end,
    ) by {
        let i = choose|i: int|
            0 <= i < gc.blocks().len() && (#[trigger] gc.blocks()[i]).begin == begin
                && gc.blocks()[i].end == end;
        let j = if gc.marking || gc.exhausted_by(size) || gc.fits_current(size) || i < u {
            i
        } else if gc.recycles(size) && i == u + f - 1 {
            u
        } else {
            i + 1
        };
        assert(post.blocks()[j].begin == begin && post.blocks()[j].end == end);
    }
}

/// A collection cycle recycles blocks and never gives one up: opening a
/// cycle, marking and sweeping leave the arena with the ranges it had.
pub proof fn lemma_cycle_keeps_blocks(idle: GcModel, marks: Seq<usize>, post: GcModel)
    requires
        idle.wf(),
        !idle.marking,
        idle.begun().traced(marks).swept_to(post),
    ensures
        forall|begin: nat, end: nat| idle.has_range(begin, end) <==> post.has_range(begin, end),
{
    let open = idle.begun().traced(marks);
    let u = idle.used.len() as int;
    let f = idle.free.len() as int;
    assert(open.blocks() =~= open.free);
    assert forall|begin: nat, end: nat| idle.has_range(begin, end) <==> post.has_range(
        begin,
        end,
    ) by {
        if idle.has_range(begin, end) {
            let i = choose|i: int|
                0 <= i < idle.blocks().len() && (#[trigger] idle.blocks()[i]).begin == begin
                    && idle.blocks()[i].end == end;
            let k = if i < u {
                f + i
            } else {
                i - u
            };
            let candidate = open.free[k];
            assert(candidate.begin == begin && candidate.end == end);
            assert(open.free.contains(candidate));
            if marked(candidate, open.marks) {
                assert(post.used.contains(candidate));
                let j = choose|j: int| 0 <= j < post.used.len() && post.used[j] == candidate;
                assert(post.blocks()[j] == candidate);
            } else {
                assert(post.free.contains(candidate.reset()));
                let j = choose|j: int|
                    0 <= j < post.free.len() && post.free[j] == candidate.reset();
                assert(post.blocks()[post.used.len() + j] == candidate.reset());
            }
        }
        if post.has_range(begin, end) {
            let j = choose|j: int|
                0 <= j < post.blocks().len() && (#[trigger] post.blocks()[j]).begin == begin
                    && post.blocks()[j].end == end;
            let candidate = if j < post.used.len() {
                assert(post.used.contains(post.used[j]));
                post.used[j]
            } else {
                assert(post.free.contains(post.free[j - post.used.len()]));
                choose|c: BlockModel|
                    #[trigger] open.free.contains(c) && !marked(c, open.marks) && post.free[j
                        - post.used.len()] == c.reset()
            };
            assert(open.free.contains(candidate));
            let k = choose|k: int| 0 <= k < open.free.len() && open.free[k] == candidate;
            let i = if k < f {
                u + k
            } else {
                k - f
            };
            assert(idle.blocks()[i].begin == begin && idle.blocks()[i].end == end);
        }
    }
}

/// A sweep has one outcome: the state in which a cycle was open decides
/// which blocks are in use afterwards, which are free, and in which order.
pub proof fn lemma_sweep_determined(open: GcModel, first: GcModel, second: GcModel)
    requires
        open.wf(),
        open.marking,
        open.swept_to(first),
        open.swept_to(second),
    ensures
        first == second,
{
    open.lemma_swept(first);
    assert forall|i: int| 0 <= i < first.used.len() implies (#[trigger] first.used[i]).begin
        < first.used[i].end by {
        assert(first.admits(first.blocks()[i]));
    }
    assert forall|i: int| 0 <= i < first.free.len() implies (#[trigger] first.free[i]).begin
        < first.free[i].end by {
        assert(first.admits(first.blocks()[first.used.len() + i]));
    }
    lemma_ordered_unique(first.used, second.used);
    lemma_ordered_unique(first.free, second.free);
    assert(first.marks =~= second.marks);
}

} // verus!
