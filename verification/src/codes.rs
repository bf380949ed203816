//! What holds of the codes that a tree gives: they are prefix-free, and the
//! inverse table leads from each code back to its symbol.
use crate::huff::{code_table, inverse_table};
use crate::tree::HuffTree;
use vstd::prelude::*;

verus! {

/// Every code in the inverse table of a tree starts with the root's prefix
/// and goes on for at most the tree's height; below an inner node it goes on
/// for at least one bit.
pub proof fn lemma_inverse_keys(tree: HuffTree, prefix: Seq<bool>, key: Seq<bool>)
    requires
        tree.inverse_codes(prefix).contains_key(key),
    ensures
        prefix.is_prefix_of(key),
        key.len() <= prefix.len() + tree.height(),
        tree is Node ==> key.len() > prefix.len(),
        tree is Leaf ==> key == prefix,
        tree.symbols().contains(tree.inverse_codes(prefix)[key]),
    decreases tree,
{
    match tree {
        HuffTree::Leaf { .. } => {},
        HuffTree::Node { left, right, .. } => {
            if right.inverse_codes(prefix.push(true)).contains_key(key) {
                lemma_inverse_keys(*right, prefix.push(true), key);
                assert(prefix.push(true).subrange(0, prefix.len() as int) == prefix);
            } else {
                lemma_inverse_keys(*left, prefix.push(false), key);
                assert(prefix.push(false).subrange(0, prefix.len() as int) == prefix);
            }
            assert(key.subrange(0, prefix.len() as int) =~= prefix);
        },
    }
}

/// The bit with which a code goes on behind the prefix tells the side of the
/// tree on which its leaf hangs: 0 for the left, 1 for the right.
proof fn lemma_side(tree: HuffTree, prefix: Seq<bool>, key: Seq<bool>)
    requires
        tree is Node,
        tree.inverse_codes(prefix).contains_key(key),
    ensures
        key.len() > prefix.len(),
        key[prefix.len() as int] <==> tree->right.inverse_codes(prefix.push(true)).contains_key(key),
        !key[prefix.len() as int] <==> tree->left.inverse_codes(prefix.push(false)).contains_key(
            key,
        ),
{
    match tree {
        HuffTree::Leaf { .. } => {},
        HuffTree::Node { left, right, .. } => {
            if right.inverse_codes(prefix.push(true)).contains_key(key) {
                lemma_inverse_keys(*right, prefix.push(true), key);
                assert(key.subrange(0, prefix.len() as int + 1)[prefix.len() as int] == prefix.push(
                    true,
                )[prefix.len() as int]);
            }
            if left.inverse_codes(prefix.push(false)).contains_key(key) {
                lemma_inverse_keys(*left, prefix.push(false), key);
                assert(key.subrange(0, prefix.len() as int + 1)[prefix.len() as int] == prefix.push(
                    false,
                )[prefix.len() as int]);
            }
        },
    }
}

/// No code in the inverse table of a tree is the beginning of another.
pub proof fn lemma_inverse_prefix_free(tree: HuffTree, prefix: Seq<bool>, a: Seq<bool>, b: Seq<bool>)
    requires
        tree.inverse_codes(prefix).contains_key(a),
        tree.inverse_codes(prefix).contains_key(b),
        a.is_prefix_of(b),
    ensures
        a == b,
    decreases tree,
{
    match tree {
        HuffTree::Leaf { .. } => {},
        HuffTree::Node { left, right, .. } => {
            lemma_side(tree, prefix, a);
            lemma_side(tree, prefix, b);
            assert(b.subrange(0, a.len() as int)[prefix.len() as int] == a[prefix.len() as int]);
            if a[prefix.len() as int] {
                lemma_inverse_prefix_free(*right, prefix.push(true), a, b);
            } else {
                lemma_inverse_prefix_free(*left, prefix.push(false), a, b);
            }
        },
    }
}

/// The symbols that have a code are the symbols at the leaves, and the
/// inverse table leads from the code of each back to it.
pub proof fn lemma_codes_inverse(tree: HuffTree, prefix: Seq<bool>, byte: u8)
    ensures
        tree.codes(prefix).contains_key(byte) <==> tree.symbols().contains(byte),
        tree.symbols().contains(byte) ==> ({
            &&& tree.inverse_codes(prefix).contains_key(tree.codes(prefix)[byte])
            &&& tree.inverse_codes(prefix)[tree.codes(prefix)[byte]] == byte
        }),
    decreases tree,
{
    match tree {
        HuffTree::Leaf { .. } => {},
        HuffTree::Node { left, right, .. } => {
            lemma_codes_inverse(*left, prefix.push(false), byte);
            lemma_codes_inverse(*right, prefix.push(true), byte);
            if tree.symbols().contains(byte) && !right.symbols().contains(byte) {
                let code = left.codes(prefix.push(false))[byte];
                assert(tree.inverse_codes(prefix).contains_key(code));
                lemma_side(tree, prefix, code);
            }
        },
    }
}

/// A table and an inverse table by which a stream of codes can be read back:
/// every code is not empty, leads back to its symbol, and has no shorter
/// beginning that is a code itself.
pub open spec fn decodable(table: Map<u8, Seq<bool>>, inverse: Map<Seq<bool>, u8>) -> bool {
    forall|byte: u8| #[trigger]
        table.contains_key(byte) ==> {
            &&& table[byte].len() > 0
            &&& inverse.contains_key(table[byte])
            &&& inverse[table[byte]] == byte
            &&& forall|k: int|
                0 < k < table[byte].len() ==> !inverse.contains_key(#[trigger] table[byte].take(k))
        }
}

/// The two tables of a tree cover exactly the symbols at its leaves, and a
/// stream of its codes can be read back by them.
pub proof fn lemma_tables(tree: HuffTree)
    ensures
        code_table(tree).dom() == tree.symbols(),
        forall|code: Seq<bool>| #[trigger]
            inverse_table(tree).contains_key(code) ==> tree.symbols().contains(
                inverse_table(tree)[code],
            ) && 0 < code.len() <= tree.height() + 1,
        decodable(code_table(tree), inverse_table(tree)),
{
    let prefix = if tree is Leaf {
        seq![false]
    } else {
        Seq::empty()
    };
    let table = code_table(tree);
    let inverse = inverse_table(tree);
    assert(table == tree.codes(prefix));
    assert(inverse == tree.inverse_codes(prefix));
    assert forall|byte: u8| table.contains_key(byte) <==> tree.symbols().contains(byte) by {
        lemma_codes_inverse(tree, prefix, byte);
    }
    assert(table.dom() =~= tree.symbols());
    assert forall|code: Seq<bool>| #[trigger] inverse.contains_key(code) implies tree.symbols().contains(
        inverse[code],
    ) && 0 < code.len() <= tree.height() + 1 by {
        lemma_inverse_keys(tree, prefix, code);
    }
    assert forall|byte: u8| #[trigger] table.contains_key(byte) implies {
        &&& table[byte].len() > 0
        &&& inverse.contains_key(table[byte])
        &&& inverse[table[byte]] == byte
        &&& forall|k: int|
            0 < k < table[byte].len() ==> !inverse.contains_key(#[trigger] table[byte].take(k))
    } by {
        lemma_codes_inverse(tree, prefix, byte);
        let code = table[byte];
        lemma_inverse_keys(tree, prefix, code);
        assert forall|k: int| 0 < k < code.len() implies !inverse.contains_key(
            #[trigger] code.take(k),
        ) by {
            if inverse.contains_key(code.take(k)) {
                assert(code.take(k).is_prefix_of(code));
                lemma_inverse_prefix_free(tree, prefix, code.take(k), code);
            }
        }
    }
}

/// The codes of a tree are prefix-free: the code of one symbol is never the
/// beginning of the code of another.
pub proof fn lemma_prefix_free(tree: HuffTree, a: u8, b: u8)
    requires
        code_table(tree).contains_key(a),
        code_table(tree).contains_key(b),
        a != b,
    ensures
        !code_table(tree)[a].is_prefix_of(code_table(tree)[b]),
{
    let prefix = if tree is Leaf {
        seq![false]
    } else {
        Seq::empty()
    };
    assert(code_table(tree) == tree.codes(prefix));
    assert(inverse_table(tree) == tree.inverse_codes(prefix));
    lemma_codes_inverse(tree, prefix, a);
    lemma_codes_inverse(tree, prefix, b);
    if code_table(tree)[a].is_prefix_of(code_table(tree)[b]) {
        lemma_inverse_prefix_free(tree, prefix, code_table(tree)[a], code_table(tree)[b]);
    }
}

} // verus!
