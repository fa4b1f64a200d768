//! Address order: what it means for marks and blocks to be sorted, the two
//! sorting steps of a sweep, and what a reordering keeps.

use crate::block::{Block, BlockModel};
use vstd::prelude::*;

verus! {

/// The addresses never decrease from one position to the next.
pub open spec fn ascending(addresses: Seq<usize>) -> bool {
    forall|i: int, j: int| 0 <= i <= j < addresses.len() ==> addresses[i] <= addresses[j]
}

/// The blocks follow one another in the address space: each ends before the
/// next one begins.
pub open spec fn ordered(blocks: Seq<BlockModel>) -> bool {
    forall|i: int, j: int| 0 <= i < j < blocks.len() ==> blocks[i].end <= blocks[j].begin
}

/// No two of the blocks share an address.
pub open spec fn pairwise_disjoint(blocks: Seq<BlockModel>) -> bool {
    forall|i: int, j: int|
        0 <= i < blocks.len() && 0 <= j < blocks.len() && i != j ==> blocks[i].disjoint(blocks[j])
}

/// The models of a sequence of blocks, in the same order.
pub open spec fn models(blocks: Seq<Block>) -> Seq<BlockModel> {
    blocks.map_values(|b: Block| b@)
}

/// Sorts the addresses in ascending order.
///
/// Trusted: this is `slice::sort` of the standard library, which reorders
/// the elements it is given so that they ascend.
#[verifier::external_body]
pub(crate) fn sort_addresses(addresses: &mut Vec<usize>)
    ensures
        final(addresses)@.to_multiset() == old(addresses)@.to_multiset(),
        ascending(final(addresses)@),
{
    addresses.sort();
}

/// Sorts the blocks by their first address, ascending.
///
/// Trusted: this is `slice::sort_by_key` of the standard library, which
/// reorders the elements it is given so that their keys ascend.
#[verifier::external_body]
pub(crate) fn sort_by_base(blocks: &mut Vec<Block>)
    ensures
        final(blocks)@.to_multiset() == old(blocks)@.to_multiset(),
        forall|i: int, j: int|
            0 <= i <= j < final(blocks)@.len() ==> final(blocks)@[i]@.begin
                <= final(blocks)@[j]@.begin,
{
    blocks.sort_by_key(|b| b.begin());
}

/// Two sequences with the same elements, each as often as in the other, have
/// the same length and the same members, and either both repeat an element
/// or neither does.
pub proof fn lemma_reordering<A>(a: Seq<A>, b: Seq<A>)
    requires
        a.to_multiset() == b.to_multiset(),
    ensures
        a.len() == b.len(),
        forall|x: A| a.contains(x) <==> b.contains(x),
        a.no_duplicates() ==> b.no_duplicates(),
{
    a.to_multiset_ensures();
    b.to_multiset_ensures();
    assert forall|x: A| a.contains(x) <==> b.contains(x) by {
        assert(a.contains(x) <==> a.to_multiset().count(x) > 0);
        assert(b.contains(x) <==> b.to_multiset().count(x) > 0);
    }
    if a.no_duplicates() {
        a.lemma_multiset_has_no_duplicates();
        b.lemma_multiset_has_no_duplicates_conv();
    }
}

/// Blocks that overlap nowhere and span at least one address each, reordered
/// so that their first addresses ascend, follow one another in the address
/// space; and they are the same blocks as before.
pub proof fn lemma_sorted_blocks(before: Seq<Block>, after: Seq<Block>)
    requires
        after.to_multiset() == before.to_multiset(),
        pairwise_disjoint(models(before)),
        forall|i: int| 0 <= i < before.len() ==> (#[trigger] before[i])@.begin < before[i]@.end,
        forall|i: int, j: int| 0 <= i <= j < after.len() ==> after[i]@.begin <= after[j]@.begin,
    ensures
        ordered(models(after)),
        after.len() == before.len(),
        forall|b: Block| after.contains(b) <==> before.contains(b),
        forall|m: BlockModel| models(after).contains(m) <==> models(before).contains(m),
{
    assert(before.no_duplicates()) by {
        assert forall|i: int, j: int|
            0 <= i < before.len() && 0 <= j < before.len() && i != j implies before[i]
            != before[j] by {
            assert(models(before)[i].disjoint(models(before)[j]));
        }
    }
    lemma_reordering(before, after);
    lemma_reordering(after, before);
    assert forall|i: int, j: int| 0 <= i < j < after.len() implies models(after)[i].end <= models(
        after,
    )[j].begin by {
        assert(before.contains(after[i]));
        assert(before.contains(after[j]));
        let a = choose|a: int| 0 <= a < before.len() && before[a] == after[i];
        let b = choose|b: int| 0 <= b < before.len() && before[b] == after[j];
        assert(after[i] != after[j]);
        assert(models(before)[a].disjoint(models(before)[b]));
    }
    assert forall|m: BlockModel| models(after).contains(m) <==> models(before).contains(m) by {
        if models(after).contains(m) {
            let i = choose|i: int| 0 <= i < models(after).len() && models(after)[i] == m;
            assert(before.contains(after[i]));
            let a = choose|a: int| 0 <= a < before.len() && before[a] == after[i];
            assert(models(before)[a] == m);
        }
        if models(before).contains(m) {
            let i = choose|i: int| 0 <= i < models(before).len() && models(before)[i] == m;
            assert(after.contains(before[i]));
            let a = choose|a: int| 0 <= a < after.len() && after[a] == before[i];
            assert(models(after)[a] == m);
        }
    }
}

/// Blocks in address order are determined by which blocks they are: two
/// such sequences with the same members are the same sequence.
pub proof fn lemma_ordered_unique(a: Seq<BlockModel>, b: Seq<BlockModel>)
    requires
        ordered(a),
        ordered(b),
        forall|i: int| 0 <= i < a.len() ==> (#[trigger] a[i]).begin < a[i].end,
        forall|x: BlockModel| a.contains(x) <==> b.contains(x),
    ensures
        a == b,
    decreases a.len(),
{
    if a.len() == 0 {
        if b.len() > 0 {
            assert(b.contains(b[0]));
        }
        assert(a =~= b);
    } else {
        let top = a.last();
        assert(a.contains(top));
        let j = choose|j: int| 0 <= j < b.len() && b[j] == top;
        if j != b.len() - 1 {
            let other = b.last();
            assert(b.contains(other));
            let i = choose|i: int| 0 <= i < a.len() && a[i] == other;
            if i < a.len() - 1 {
                assert(a[i].end <= a[a.len() - 1].begin);
            }
            assert(b[j].end <= b[b.len() - 1].begin);
        }
        let front_a = a.drop_last();
        let front_b = b.drop_last();
        assert forall|x: BlockModel| front_a.contains(x) <==> front_b.contains(x) by {
            if front_a.contains(x) {
                let i = choose|i: int| 0 <= i < front_a.len() && front_a[i] == x;
                assert(a[i] == x);
                assert(a[i].end <= a[a.len() - 1].begin);
                assert(a.contains(x));
                let m = choose|m: int| 0 <= m < b.len() && b[m] == x;
                assert(front_b[m] == x);
            }
            if front_b.contains(x) {
                let m = choose|m: int| 0 <= m < front_b.len() && front_b[m] == x;
                assert(b[m] == x);
                assert(b[m].end <= b[b.len() - 1].begin);
                assert(b.contains(x));
                let i = choose|i: int| 0 <= i < a.len() && a[i] == x;
                assert(front_a[i] == x);
            }
        }
        assert forall|i: int| 0 <= i < front_a.len() implies (#[trigger] front_a[i]).begin
            < front_a[i].end by {
            assert(front_a[i] == a[i]);
        }
        assert(ordered(front_a)) by {
            assert forall|i: int, k: int| 0 <= i < k < front_a.len() implies front_a[i].end
                <= front_a[k].begin by {
                assert(a[i].end <= a[k].begin);
            }
        }
        assert(ordered(front_b)) by {
            assert forall|i: int, k: int| 0 <= i < k < front_b.len() implies front_b[i].end
                <= front_b[k].begin by {
                assert(b[i].end <= b[k].begin);
            }
        }
        lemma_ordered_unique(front_a, front_b);
        assert(a =~= front_a.push(top));
        assert(b =~= front_b.push(top));
    }
}

} // verus!
