//! The Huffman tree and the codes that its leaves get.
use crate::bits::{bits_clone, bits_push, max_bits, BitBuf};
use crate::min_heap::Weighted;
use crate::table::{HuffTable, InverseHuffTable};
use vstd::prelude::*;

verus! {

/// A strict binary tree with a symbol at each leaf.  An inner node owns its
/// two children.
#[derive(Debug)]
#[allow(inconsistent_fields)]
pub enum HuffTree {
    /// A symbol and the number of its occurrences.
    Leaf { byte: u8, freq: u32 },
    /// Two subtrees below a root; `freq` is the weight of the two together,
    /// which 64 bits hold for any tree that a frequency table gives.
    Node { freq: u64, left: Box<HuffTree>, right: Box<HuffTree> },
}

impl HuffTree {
    /// The weight that the root carries.
    pub open spec fn spec_freq(&self) -> u64 {
        match *self {
            HuffTree::Leaf { freq, .. } => freq as u64,
            HuffTree::Node { freq, .. } => freq,
        }
    }

    /// The sum of the counts at the leaves.
    pub open spec fn total(&self) -> nat
        decreases self,
    {
        match self {
            HuffTree::Leaf { freq, .. } => *freq as nat,
            HuffTree::Node { left, right, .. } => left.total() + right.total(),
        }
    }

    /// Every inner node carries the sum of its children's weights.
    pub open spec fn wf(&self) -> bool
        decreases self,
    {
        match self {
            HuffTree::Leaf { .. } => true,
            HuffTree::Node { freq, left, right } => {
                &&& left.wf()
                &&& right.wf()
                &&& *freq == left.spec_freq() + right.spec_freq()
            },
        }
    }

    /// The symbols at the leaves.
    pub open spec fn symbols(&self) -> Set<u8>
        decreases self,
    {
        match self {
            HuffTree::Leaf { byte, .. } => set![*byte],
            HuffTree::Node { left, right, .. } => left.symbols().union(right.symbols()),
        }
    }

    /// No symbol stands at two leaves.
    pub open spec fn distinct(&self) -> bool
        decreases self,
    {
        match self {
            HuffTree::Leaf { .. } => true,
            HuffTree::Node { left, right, .. } => {
                &&& left.distinct()
                &&& right.distinct()
                &&& left.symbols().disjoint(right.symbols())
            },
        }
    }

    /// The number of leaves.
    pub open spec fn leaf_count(&self) -> nat
        decreases self,
    {
        match self {
            HuffTree::Leaf { .. } => 1,
            HuffTree::Node { left, right, .. } => left.leaf_count() + right.leaf_count(),
        }
    }

    /// The number of edges on the longest way from the root to a leaf.
    pub open spec fn height(&self) -> nat
        decreases self,
    {
        match self {
            HuffTree::Leaf { .. } => 0,
            HuffTree::Node { left, right, .. } => {
                1 + if left.height() >= right.height() {
                    left.height()
                } else {
                    right.height()
                }
            },
        }
    }

    /// The code of each symbol when the root's own code is `prefix`: a left
    /// edge appends a 0 bit, a right edge a 1 bit.  Where a symbol stands at
    /// several leaves, the rightmost one gives its code.
    pub open spec fn codes(&self, prefix: Seq<bool>) -> Map<u8, Seq<bool>>
        decreases self,
    {
        match self {
            HuffTree::Leaf { byte, .. } => map![*byte => prefix],
            HuffTree::Node { left, right, .. } => left.codes(prefix.push(false)).union_prefer_right(
                right.codes(prefix.push(true)),
            ),
        }
    }

    /// The symbol at the end of each way from the root to a leaf, the ways
    /// written as codes behind `prefix`.
    pub open spec fn inverse_codes(&self, prefix: Seq<bool>) -> Map<Seq<bool>, u8>
        decreases self,
    {
        match self {
            HuffTree::Leaf { byte, .. } => map![prefix => *byte],
            HuffTree::Node { left, right, .. } => left.inverse_codes(
                prefix.push(false),
            ).union_prefer_right(right.inverse_codes(prefix.push(true))),
        }
    }

    /// The table of codes of this tree behind the prefix `code`.
    pub fn pre_order_code(&self, code: BitBuf) -> (table: HuffTable)
        requires
            code@.len() + self.height() <= max_bits(),
        ensures
            table@ == self.codes(code@),
    {
        let mut table = HuffTable::new();
        self.collect_codes(code, &mut table);
        assert(table@ =~= self.codes(code@));
        table
    }

    fn collect_codes(&self, code: BitBuf, table: &mut HuffTable)
        requires
            code@.len() + self.height() <= max_bits(),
        ensures
            final(table)@ == old(table)@.union_prefer_right(self.codes(code@)),
        decreases self,
    {
        match self {
            HuffTree::Leaf { byte, .. } => {
                table.insert(*byte, code);
                assert(table@ =~= old(table)@.union_prefer_right(self.codes(code@)));
            },
            HuffTree::Node { left, right, .. } => {
                let mut left_code = bits_clone(&code);
                bits_push(&mut left_code, false);
                left.collect_codes(left_code, table);
                let mut right_code = code;
                bits_push(&mut right_code, true);
                right.collect_codes(right_code, table);
                assert(table@ =~= old(table)@.union_prefer_right(self.codes(code@)));
            },
        }
    }

    /// The table from codes back to symbols of this tree behind the prefix
    /// `code`.
    pub fn pre_order_byte(&self, code: BitBuf) -> (table: InverseHuffTable)
        requires
            code@.len() + self.height() <= max_bits(),
        ensures
            table@ == self.inverse_codes(code@),
    {
        let mut table = InverseHuffTable::new();
        self.collect_bytes(code, &mut table);
        assert(table@ =~= self.inverse_codes(code@));
        table
    }

    fn collect_bytes(&self, code: BitBuf, table: &mut InverseHuffTable)
        requires
            code@.len() + self.height() <= max_bits(),
        ensures
            final(table)@ == old(table)@.union_prefer_right(self.inverse_codes(code@)),
        decreases self,
    {
        match self {
            HuffTree::Leaf { byte, .. } => {
                table.insert(code, *byte);
                assert(table@ =~= old(table)@.union_prefer_right(self.inverse_codes(code@)));
            },
            HuffTree::Node { left, right, .. } => {
                let mut left_code = bits_clone(&code);
                bits_push(&mut left_code, false);
                left.collect_bytes(left_code, table);
                let mut right_code = code;
                bits_push(&mut right_code, true);
                right.collect_bytes(right_code, table);
                assert(table@ =~= old(table)@.union_prefer_right(self.inverse_codes(code@)));
            },
        }
    }

    /// The tree with `left` and `right` below a new root that carries the sum
    /// of their weights.
    pub fn combine(left: HuffTree, right: HuffTree) -> (tree: HuffTree)
        requires
            left.spec_freq() + right.spec_freq() <= u64::MAX,
        ensures
            tree == joined(left, right),
    {
        HuffTree::Node {
            freq: left.freq() + right.freq(),
            left: Box::new(left),
            right: Box::new(right),
        }
    }

    /// The tree of one leaf.
    pub fn leaf(byte: u8, freq: u32) -> (tree: HuffTree)
        ensures
            tree == (HuffTree::Leaf { byte, freq }),
    {
        HuffTree::Leaf { byte, freq }
    }

    /// The weight that the root carries.
    pub fn freq(&self) -> (weight: u64)
        ensures
            weight == self.spec_freq(),
    {
        match self {
            HuffTree::Leaf { freq, .. } => *freq as u64,
            HuffTree::Node { freq, .. } => *freq,
        }
    }
}

/// The tree with `left` and `right` below a new root.
pub open spec fn joined(left: HuffTree, right: HuffTree) -> HuffTree {
    HuffTree::Node {
        freq: (left.spec_freq() + right.spec_freq()) as u64,
        left: Box::new(left),
        right: Box::new(right),
    }
}

/// In a well-formed tree the root carries the sum of the leaves' counts.
pub proof fn lemma_wf_total(tree: HuffTree)
    requires
        tree.wf(),
    ensures
        tree.spec_freq() == tree.total(),
    decreases tree,
{
    match tree {
        HuffTree::Leaf { .. } => {},
        HuffTree::Node { left, right, .. } => {
            lemma_wf_total(*left);
            lemma_wf_total(*right);
        },
    }
}

/// A tree has at least one leaf, each leaf counts less than 2^32, and the
/// longest way down passes fewer edges than there are leaves.
pub proof fn lemma_leaf_count(tree: HuffTree)
    ensures
        tree.leaf_count() >= 1,
        tree.total() <= tree.leaf_count() * 0xffff_ffff,
        tree.height() + 1 <= tree.leaf_count(),
    decreases tree,
{
    match tree {
        HuffTree::Leaf { .. } => {},
        HuffTree::Node { left, right, .. } => {
            lemma_leaf_count(*left);
            lemma_leaf_count(*right);
            assert((left.leaf_count() + right.leaf_count()) * 0xffff_ffff == left.leaf_count()
                * 0xffff_ffff + right.leaf_count() * 0xffff_ffff) by (nonlinear_arith);
        },
    }
}

impl Weighted for HuffTree {
    open spec fn weight(&self) -> nat {
        self.spec_freq() as nat
    }

    fn weight_value(&self) -> (w: u64) {
        self.freq()
    }
}

} // verus!
