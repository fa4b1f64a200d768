//! The sweep: one linear merge of the candidate blocks with the marked
//! addresses, both in address order, that parts the blocks into those to
//! keep and those to recycle.

use crate::block::{Block, BlockModel};
use crate::order::{ascending, models, ordered};
use vstd::prelude::*;

verus! {

/// At least one of the marked addresses lies inside the block.
pub open spec fn marked(block: BlockModel, marks: Seq<usize>) -> bool {
    exists|k: int| 0 <= k < marks.len() && block.contains(#[trigger] marks[k] as nat)
}

/// The blocks that hold a marked address, in their order.
pub open spec fn retained(blocks: Seq<BlockModel>, marks: Seq<usize>) -> Seq<BlockModel> {
    blocks.filter(|b: BlockModel| marked(b, marks))
}

/// The blocks that hold no marked address, in their order, each one reset.
pub open spec fn reclaimed(blocks: Seq<BlockModel>, marks: Seq<usize>) -> Seq<BlockModel> {
    blocks.filter(|b: BlockModel| !marked(b, marks)).map_values(|b: BlockModel| b.reset())
}

/// Parts the candidates into the blocks to keep and the blocks to recycle.
///
/// A block is kept, untouched, when a marked address lies inside it.  Every
/// other block is reset.  Both parts keep the address order.  A mark that
/// lies in no candidate has no effect.
pub fn sweep(candidates: Vec<Block>, marks: &Vec<usize>) -> (parts: (Vec<Block>, Vec<Block>))
    requires
        forall|i: int| 0 <= i < candidates@.len() ==> (#[trigger] candidates@[i])@.wf(),
        ordered(models(candidates@)),
        ascending(marks@),
    ensures
        models(parts.0@) == retained(models(candidates@), marks@),
        models(parts.1@) == reclaimed(models(candidates@), marks@),
{
    let ghost all = models(candidates@);
    let ghost keep = |b: BlockModel| marked(b, marks@);
    let ghost drop = |b: BlockModel| !marked(b, marks@);
    let ghost reset = |b: BlockModel| b.reset();
    let mut kept: Vec<Block> = Vec::new();
    let mut recycled: Vec<Block> = Vec::new();
    let mut m: usize = 0;
    proof {
        reveal(Seq::filter);
        assert(all.take(0).filter(keep) =~= models(kept@));
        assert(all.take(0).filter(drop).map_values(reset) =~= models(recycled@));
    }
    for block in it: candidates
        invariant
            it.seq() == candidates@,
            all == models(candidates@),
            ordered(all),
            forall|i: int| 0 <= i < candidates@.len() ==> (#[trigger] candidates@[i])@.wf(),
            ascending(marks@),
            keep == |b: BlockModel| marked(b, marks@),
            drop == |b: BlockModel| !marked(b, marks@),
            reset == |b: BlockModel| b.reset(),
            m <= marks@.len(),
            forall|k: int, j: int|
                0 <= k < m && it.index() <= j < all.len() ==> marks@[k] < all[j].begin,
            models(kept@) == all.take(it.index() as int).filter(keep),
            models(recycled@) == all.take(it.index() as int).filter(drop).map_values(reset),
    {
        let ghost index = it.index() as int;
        let ghost model = block@;
        assert(model == all[index]);
        let mut block = block;
        while m < marks.len() && marks[m] < block.begin()
            invariant
                m <= marks@.len(),
                block@ == model,
                forall|k: int| 0 <= k < m ==> marks@[k] < model.begin,
            decreases marks@.len() - m,
        {
            m = m + 1;
        }
        proof {
            assert(all.take(index + 1) =~= all.take(index).push(model));
            all.take(index).lemma_filter_push(model, keep);
            all.take(index).lemma_filter_push(model, drop);
        }
        if m < marks.len() && block.contains(marks[m]) {
            assert(marked(model, marks@));
            kept.push(block);
            assert(models(kept@) =~= all.take(index).filter(keep).push(model));
        } else {
            assert(!marked(model, marks@)) by {
                assert forall|k: int| 0 <= k < marks@.len() implies !model.contains(
                    marks@[k] as nat,
                ) by {
                    if k >= m {
                        assert(marks@[m as int] <= marks@[k]);
                    }
                }
            }
            block.free();
            recycled.push(block);
            assert(models(recycled@) =~= all.take(index).filter(drop).map_values(reset).push(
                model.reset(),
            ));
            assert(all.take(index).filter(drop).push(model).map_values(reset) =~= all.take(
                index,
            ).filter(drop).map_values(reset).push(model.reset()));
        }
        assert forall|k: int, j: int| 0 <= k < m && index + 1 <= j < all.len() implies marks@[k]
            < all[j].begin by {
            assert(candidates@[index]@.wf());
            assert(all[index].end <= all[j].begin);
        }
    }
    proof {
        assert(all.take(all.len() as int) =~= all);
    }
    (kept, recycled)
}

/// Whether a block is marked depends on which addresses are marked, not on
/// their order or number.
pub proof fn lemma_marked_by_members(block: BlockModel, first: Seq<usize>, second: Seq<usize>)
    requires
        forall|a: usize| first.contains(a) <==> second.contains(a),
    ensures
        marked(block, first) == marked(block, second),
{
    if marked(block, first) {
        let k = choose|k: int| 0 <= k < first.len() && block.contains(#[trigger] first[k] as nat);
        assert(first.contains(first[k]));
        let j = choose|j: int| 0 <= j < second.len() && second[j] == first[k];
        assert(block.contains(second[j] as nat));
    }
    if marked(block, second) {
        let k = choose|k: int| 0 <= k < second.len() && block.contains(#[trigger] second[k] as nat);
        assert(second.contains(second[k]));
        let j = choose|j: int| 0 <= j < first.len() && first[j] == second[k];
        assert(block.contains(first[j] as nat));
    }
}

/// What is left of blocks in address order, after some were taken out, is
/// in address order.
pub proof fn lemma_filter_ordered(blocks: Seq<BlockModel>, pred: spec_fn(BlockModel) -> bool)
    requires
        ordered(blocks),
    ensures
        ordered(blocks.filter(pred)),
        forall|b: BlockModel| blocks.filter(pred).contains(b) <==> blocks.contains(b) && pred(b),
    decreases blocks.len(),
{
    reveal(Seq::filter);
    let kept = blocks.filter(pred);
    if blocks.len() > 0 {
        let front = blocks.drop_last();
        let last = blocks.last();
        lemma_filter_ordered(front, pred);
        assert forall|b: BlockModel| kept.contains(b) <==> blocks.contains(b) && pred(b) by {
            if kept.contains(b) {
                let i = choose|i: int| 0 <= i < kept.len() && kept[i] == b;
                if i < front.filter(pred).len() {
                    assert(front.filter(pred)[i] == b);
                    assert(front.filter(pred).contains(b));
                    assert(front.contains(b) && pred(b));
                    let j = choose|j: int| 0 <= j < front.len() && front[j] == b;
                    assert(blocks[j] == b);
                } else {
                    assert(blocks[blocks.len() - 1] == b);
                }
            }
            if blocks.contains(b) && pred(b) {
                let j = choose|j: int| 0 <= j < blocks.len() && blocks[j] == b;
                if j < front.len() {
                    assert(front[j] == b);
                    assert(front.filter(pred).contains(b));
                    let i = choose|i: int|
                        0 <= i < front.filter(pred).len() && front.filter(pred)[i] == b;
                    assert(kept[i] == b);
                } else {
                    assert(kept[kept.len() - 1] == b);
                }
            }
        }
        assert forall|i: int, j: int| 0 <= i < j < kept.len() implies kept[i].end
            <= kept[j].begin by {
            if j < front.filter(pred).len() {
                assert(front.filter(pred)[i].end <= front.filter(pred)[j].begin);
            } else {
                assert(front.filter(pred)[i] == kept[i]);
                assert(front.filter(pred).contains(kept[i]));
                assert(front.contains(kept[i]));
                let k = choose|k: int| 0 <= k < front.len() && front[k] == kept[i];
                assert(blocks[k].end <= blocks[blocks.len() - 1].begin);
            }
        }
    } else {
        assert forall|b: BlockModel| kept.contains(b) <==> blocks.contains(b) && pred(b) by {
            if kept.contains(b) {
                let i = choose|i: int| 0 <= i < kept.len() && kept[i] == b;
            }
            if blocks.contains(b) {
                let i = choose|i: int| 0 <= i < blocks.len() && blocks[i] == b;
            }
        }
    }
}

/// The blocks that a sweep keeps are those that are marked, in address
/// order; the blocks that it recycles are the others, reset, in address
/// order.
pub proof fn lemma_sweep_parts(blocks: Seq<BlockModel>, marks: Seq<usize>)
    requires
        ordered(blocks),
    ensures
        ordered(retained(blocks, marks)),
        ordered(reclaimed(blocks, marks)),
        forall|b: BlockModel|
            retained(blocks, marks).contains(b) <==> blocks.contains(b) && marked(b, marks),
        forall|b: BlockModel|
            reclaimed(blocks, marks).contains(b) <==> exists|c: BlockModel|
                #[trigger] blocks.contains(c) && !marked(c, marks) && b == c.reset(),
        retained(blocks, marks).len() + reclaimed(blocks, marks).len() == blocks.len(),
{
    let keep = |b: BlockModel| marked(b, marks);
    let drop = |b: BlockModel| !marked(b, marks);
    let reset = |b: BlockModel| b.reset();
    lemma_filter_ordered(blocks, keep);
    lemma_filter_ordered(blocks, drop);
    let dropped = blocks.filter(drop);
    let recycled = reclaimed(blocks, marks);
    assert forall|i: int, j: int| 0 <= i < j < recycled.len() implies recycled[i].end
        <= recycled[j].begin by {
        assert(dropped[i].end <= dropped[j].begin);
    }
    assert forall|b: BlockModel|
        recycled.contains(b) <==> exists|c: BlockModel|
            #[trigger] blocks.contains(c) && !marked(c, marks) && b == c.reset() by {
        if recycled.contains(b) {
            let i = choose|i: int| 0 <= i < recycled.len() && recycled[i] == b;
            assert(dropped.contains(dropped[i]));
            assert(blocks.contains(dropped[i]) && !marked(dropped[i], marks));
            assert(b == dropped[i].reset());
        }
        if exists|c: BlockModel|
            #[trigger] blocks.contains(c) && !marked(c, marks) && b == c.reset() {
            let c = choose|c: BlockModel|
                #[trigger] blocks.contains(c) && !marked(c, marks) && b == c.reset();
            assert(dropped.contains(c));
            let i = choose|i: int| 0 <= i < dropped.len() && dropped[i] == c;
            assert(recycled[i] == b);
        }
    }
    lemma_partition_len(blocks, marks);
}

/// A sweep neither loses nor invents a block.
pub proof fn lemma_partition_len(blocks: Seq<BlockModel>, marks: Seq<usize>)
    ensures
        retained(blocks, marks).len() + reclaimed(blocks, marks).len() == blocks.len(),
    decreases blocks.len(),
{
    reveal(Seq::filter);
    if blocks.len() > 0 {
        lemma_partition_len(blocks.drop_last(), marks);
    }
}

} // verus!
