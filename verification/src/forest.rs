//! How a queue of trees becomes one tree, and what the merging keeps.
use crate::min_heap::{
    ascending, enqueue, enqueue_all, entry_position, lemma_entry_position_bound, Weighted,
};
use crate::tree::{joined, lemma_leaf_count, lemma_wf_total, HuffTree};
use vstd::prelude::*;

verus! {

/// The leaves that a frequency table gives, in the table's order.
pub open spec fn leaves_of(entries: Seq<(u8, u32)>) -> Seq<HuffTree> {
    entries.map_values(|e: (u8, u32)| HuffTree::Leaf { byte: e.0, freq: e.1 })
}

/// The tree that remains when the two lightest trees of `queue` are joined
/// under a new root and put back, until one tree is left.
pub open spec fn merge_queue(queue: Seq<HuffTree>) -> HuffTree
    decreases queue.len(),
    via merge_queue_decreases
{
    if queue.len() <= 1 {
        queue[0]
    } else {
        merge_queue(enqueue(queue.skip(2), joined(queue[0], queue[1])))
    }
}

#[via_fn]
proof fn merge_queue_decreases(queue: Seq<HuffTree>) {
    if queue.len() > 1 {
        lemma_entry_position_bound(queue.skip(2), joined(queue[0], queue[1]).weight());
    }
}

/// The Huffman tree of a frequency table: its leaves enter the queue in the
/// table's order and are merged.
pub open spec fn huffman_tree(entries: Seq<(u8, u32)>) -> HuffTree {
    merge_queue(enqueue_all(leaves_of(entries)))
}

/// The number of leaves of all trees of `queue` together.
pub open spec fn leaf_total(queue: Seq<HuffTree>) -> nat
    decreases queue.len(),
{
    if queue.len() == 0 {
        0
    } else {
        queue[0].leaf_count() + leaf_total(queue.drop_first())
    }
}

/// The symbols at the leaves of all trees of `queue`.
pub open spec fn forest_symbols(queue: Seq<HuffTree>) -> Set<u8> {
    Set::new(|byte: u8| exists|i: int| 0 <= i < queue.len() && (#[trigger] queue[i]).symbols().contains(byte))
}

/// Every tree of `queue` is well formed, and no symbol stands at two leaves
/// of the queue, be it in one tree or in two.
pub open spec fn separate(queue: Seq<HuffTree>) -> bool {
    &&& forall|i: int| 0 <= i < queue.len() ==> (#[trigger] queue[i]).wf() && queue[i].distinct()
    &&& forall|i: int, j: int|
        0 <= i < j < queue.len() ==> (#[trigger] queue[i]).symbols().disjoint(
            (#[trigger] queue[j]).symbols(),
        )
}

/// Putting a tree into a queue adds its leaves to the total.
pub proof fn lemma_leaf_total_insert(queue: Seq<HuffTree>, at: int, tree: HuffTree)
    requires
        0 <= at <= queue.len(),
    ensures
        leaf_total(queue.insert(at, tree)) == leaf_total(queue) + tree.leaf_count(),
    decreases at,
{
    let after = queue.insert(at, tree);
    if at == 0 {
        assert(after.drop_first() == queue);
    } else {
        assert(after.drop_first() == queue.drop_first().insert(at - 1, tree));
        lemma_leaf_total_insert(queue.drop_first(), at - 1, tree);
    }
}

/// Putting a tree into a separate queue, with symbols that the queue does
/// not have, leaves the queue separate and adds the tree's symbols.
pub proof fn lemma_separate_insert(queue: Seq<HuffTree>, at: int, tree: HuffTree)
    requires
        0 <= at <= queue.len(),
        separate(queue),
        tree.wf(),
        tree.distinct(),
        tree.symbols().disjoint(forest_symbols(queue)),
    ensures
        separate(queue.insert(at, tree)),
        forest_symbols(queue.insert(at, tree)) == forest_symbols(queue).union(tree.symbols()),
{
    let after = queue.insert(at, tree);
    let old_index = |k: int| if k < at { k } else { k - 1 };
    assert forall|i: int| 0 <= i < after.len() && i != at implies #[trigger] after[i]
        == queue[old_index(i)] by {}
    assert forall|i: int| 0 <= i < queue.len() implies (#[trigger] queue[i]).symbols().disjoint(
        tree.symbols(),
    ) by {
        assert forall|byte: u8| queue[i].symbols().contains(byte) implies !tree.symbols().contains(
            byte,
        ) by {
            assert(forest_symbols(queue).contains(byte));
        }
    }
    assert forall|i: int, j: int| 0 <= i < j < after.len() implies (#[trigger] after[i]).symbols().disjoint(
        (#[trigger] after[j]).symbols(),
    ) by {
        if i == at {
            assert(after[j] == queue[old_index(j)]);
            assert(queue[old_index(j)].symbols().disjoint(tree.symbols()));
        } else if j == at {
            assert(after[i] == queue[old_index(i)]);
            assert(queue[old_index(i)].symbols().disjoint(tree.symbols()));
        } else {
            assert(after[i] == queue[old_index(i)]);
            assert(after[j] == queue[old_index(j)]);
        }
    }
    assert forall|i: int| 0 <= i < after.len() implies (#[trigger] after[i]).wf()
        && after[i].distinct() by {
        if i != at {
            assert(after[i] == queue[old_index(i)]);
        }
    }
    assert forall|byte: u8|
        forest_symbols(after).contains(byte) <==> forest_symbols(queue).union(
            tree.symbols(),
        ).contains(byte) by {
        if forest_symbols(after).contains(byte) {
            let i = choose|i: int| 0 <= i < after.len() && (#[trigger] after[i]).symbols().contains(byte);
            if i != at {
                assert(after[i] == queue[old_index(i)]);
                assert(queue[old_index(i)].symbols().contains(byte));
            }
        }
        if forest_symbols(queue).contains(byte) {
            let i = choose|i: int| 0 <= i < queue.len() && (#[trigger] queue[i]).symbols().contains(byte);
            let k = if i < at { i } else { i + 1 };
            assert(after[k] == queue[i]);
            assert(after[k].symbols().contains(byte));
        }
        if tree.symbols().contains(byte) {
            assert(after[at].symbols().contains(byte));
        }
    }
    assert(forest_symbols(after) =~= forest_symbols(queue).union(tree.symbols()));
}

/// One merging step on a separate queue of at least two trees: the two
/// lightest trees can be joined without overflow as long as the queue has at
/// most 2^32 leaves, and the queue that results is separate, has the same
/// leaves and symbols, and is one tree shorter.
pub proof fn lemma_merge_step(queue: Seq<HuffTree>)
    requires
        queue.len() >= 2,
        separate(queue),
        leaf_total(queue) <= 0x1_0000_0000,
    ensures
        queue[0].spec_freq() + queue[1].spec_freq() <= u64::MAX,
        joined(queue[0], queue[1]).wf(),
        ({
            let next = enqueue(queue.skip(2), joined(queue[0], queue[1]));
            &&& next.len() == queue.len() - 1
            &&& separate(next)
            &&& leaf_total(next) == leaf_total(queue)
            &&& forest_symbols(next) == forest_symbols(queue)
        }),
{
    let first = queue[0];
    let second = queue[1];
    let rest = queue.skip(2);
    let tree = joined(first, second);
    assert(queue.drop_first().drop_first() == rest);
    assert(queue.drop_first()[0] == second);
    assert(leaf_total(queue) == first.leaf_count() + leaf_total(queue.drop_first()));
    assert(leaf_total(queue.drop_first()) == second.leaf_count() + leaf_total(rest));
    lemma_wf_total(first);
    lemma_wf_total(second);
    lemma_leaf_count(first);
    lemma_leaf_count(second);
    assert((first.leaf_count() + second.leaf_count()) * 0xffff_ffff <= 0x1_0000_0000
        * 0xffff_ffff) by (nonlinear_arith)
        requires
            first.leaf_count() + second.leaf_count() <= 0x1_0000_0000,
    ;
    assert((first.leaf_count() + second.leaf_count()) * 0xffff_ffff == first.leaf_count()
        * 0xffff_ffff + second.leaf_count() * 0xffff_ffff) by (nonlinear_arith);
    assert(first.symbols().disjoint(second.symbols()));
    assert(tree.wf());
    assert(tree.distinct());
    assert forall|i: int| 0 <= i < rest.len() implies #[trigger] rest[i] == queue[i + 2] by {}
    assert(separate(rest)) by {
        assert forall|i: int| 0 <= i < rest.len() implies (#[trigger] rest[i]).wf()
            && rest[i].distinct() by {
            assert(rest[i] == queue[i + 2]);
        }
        assert forall|i: int, j: int| 0 <= i < j < rest.len() implies (#[trigger] rest[i]).symbols().disjoint(
            (#[trigger] rest[j]).symbols(),
        ) by {
            assert(rest[i] == queue[i + 2] && rest[j] == queue[j + 2]);
        }
    }
    assert(tree.symbols().disjoint(forest_symbols(rest))) by {
        assert forall|byte: u8| tree.symbols().contains(byte) implies !forest_symbols(
            rest,
        ).contains(byte) by {
            if forest_symbols(rest).contains(byte) {
                let i = choose|i: int| 0 <= i < rest.len() && (#[trigger] rest[i]).symbols().contains(byte);
                assert(rest[i] == queue[i + 2]);
                assert(queue[0].symbols().disjoint(queue[i + 2].symbols()));
                assert(queue[1].symbols().disjoint(queue[i + 2].symbols()));
            }
        }
    }
    let at = entry_position(rest, tree.weight()) as int;
    lemma_entry_position_bound(rest, tree.weight());
    lemma_leaf_total_insert(rest, at, tree);
    lemma_separate_insert(rest, at, tree);
    let next = enqueue(rest, tree);
    assert forall|byte: u8| forest_symbols(queue).contains(byte) <==> forest_symbols(rest).union(
        tree.symbols(),
    ).contains(byte) by {
        if forest_symbols(queue).contains(byte) {
            let i = choose|i: int| 0 <= i < queue.len() && (#[trigger] queue[i]).symbols().contains(byte);
            if i >= 2 {
                assert(rest[i - 2] == queue[i]);
                assert(rest[i - 2].symbols().contains(byte));
            }
        }
        if forest_symbols(rest).contains(byte) {
            let i = choose|i: int| 0 <= i < rest.len() && (#[trigger] rest[i]).symbols().contains(byte);
            assert(queue[i + 2].symbols().contains(byte));
        }
        if tree.symbols().contains(byte) {
            assert(queue[0].symbols().contains(byte) || queue[1].symbols().contains(byte));
        }
    }
    assert(forest_symbols(next) =~= forest_symbols(queue));
}

/// Merging a separate queue gives a well-formed tree that has each symbol of
/// the queue at exactly one leaf.
pub proof fn lemma_merge_queue(queue: Seq<HuffTree>)
    requires
        queue.len() >= 1,
        separate(queue),
        leaf_total(queue) <= 0x1_0000_0000,
    ensures
        merge_queue(queue).wf(),
        merge_queue(queue).distinct(),
        merge_queue(queue).symbols() == forest_symbols(queue),
        merge_queue(queue).leaf_count() == leaf_total(queue),
    decreases queue.len(),
{
    if queue.len() == 1 {
        assert(queue.drop_first().len() == 0);
        assert(leaf_total(queue.drop_first()) == 0);
        assert forall|byte: u8| forest_symbols(queue).contains(byte) implies queue[0].symbols().contains(
            byte,
        ) by {
            let i = choose|i: int| 0 <= i < queue.len() && (#[trigger] queue[i]).symbols().contains(byte);
        }
        assert(queue[0].symbols() =~= forest_symbols(queue));
    } else {
        lemma_merge_step(queue);
        lemma_merge_queue(enqueue(queue.skip(2), joined(queue[0], queue[1])));
    }
}

/// The symbols that a frequency table names.
pub open spec fn entry_symbols(entries: Seq<(u8, u32)>) -> Set<u8> {
    Set::new(|byte: u8| exists|i: int| 0 <= i < entries.len() && (#[trigger] entries[i]).0 == byte)
}

/// The queue of the leaves of a table with distinct symbols is ascending and
/// separate, and has one leaf for each entry.
pub proof fn lemma_leaf_queue(entries: Seq<(u8, u32)>)
    requires
        forall|i: int, j: int| 0 <= i < j < entries.len() ==> entries[i].0 != entries[j].0,
    ensures
        ascending(enqueue_all(leaves_of(entries))),
        enqueue_all(leaves_of(entries)).len() == entries.len(),
        separate(enqueue_all(leaves_of(entries))),
        leaf_total(enqueue_all(leaves_of(entries))) == entries.len(),
        forest_symbols(enqueue_all(leaves_of(entries))) == entry_symbols(entries),
    decreases entries.len(),
{
    crate::min_heap::lemma_enqueue_all_ascending(leaves_of(entries));
    let queue = enqueue_all(leaves_of(entries));
    if entries.len() == 0 {
        assert(forest_symbols(queue) =~= entry_symbols(entries));
    } else {
        let front = entries.drop_last();
        let last = entries.last();
        let leaf = HuffTree::Leaf { byte: last.0, freq: last.1 };
        assert(leaves_of(entries).drop_last() == leaves_of(front));
        assert(leaves_of(entries).last() == leaf);
        lemma_leaf_queue(front);
        let before = enqueue_all(leaves_of(front));
        let at = entry_position(before, leaf.weight()) as int;
        lemma_entry_position_bound(before, leaf.weight());
        assert(leaf.symbols().disjoint(forest_symbols(before))) by {
            if forest_symbols(before).contains(last.0) {
                let i = choose|i: int| 0 <= i < front.len() && (#[trigger] front[i]).0 == last.0;
                assert(entries[i].0 == entries[entries.len() - 1].0);
            }
        }
        lemma_leaf_total_insert(before, at, leaf);
        lemma_separate_insert(before, at, leaf);
        assert forall|byte: u8| entry_symbols(entries).contains(byte) <==> entry_symbols(
            front,
        ).union(leaf.symbols()).contains(byte) by {
            if entry_symbols(entries).contains(byte) {
                let i = choose|i: int| 0 <= i < entries.len() && (#[trigger] entries[i]).0 == byte;
                if i < front.len() {
                    assert(front[i].0 == byte);
                }
            }
            if entry_symbols(front).contains(byte) {
                let i = choose|i: int| 0 <= i < front.len() && (#[trigger] front[i]).0 == byte;
                assert(entries[i].0 == byte);
            }
            if leaf.symbols().contains(byte) {
                assert(entries[entries.len() - 1].0 == byte);
            }
        }
        assert(forest_symbols(queue) =~= entry_symbols(entries));
    }
}

/// The Huffman tree of a non-empty table with at most 2^32 distinct symbols
/// is well formed and has exactly the table's symbols, each at one leaf.
pub proof fn lemma_huffman_tree(entries: Seq<(u8, u32)>)
    requires
        0 < entries.len() <= 0x1_0000_0000,
        forall|i: int, j: int| 0 <= i < j < entries.len() ==> entries[i].0 != entries[j].0,
    ensures
        huffman_tree(entries).wf(),
        huffman_tree(entries).distinct(),
        huffman_tree(entries).symbols() == entry_symbols(entries),
        huffman_tree(entries).leaf_count() == entries.len(),
        huffman_tree(entries).height() < entries.len(),
{
    lemma_leaf_queue(entries);
    lemma_merge_queue(enqueue_all(leaves_of(entries)));
    lemma_leaf_count(huffman_tree(entries));
}

} // verus!
