//! Frequency tables, the Huffman tree built from one, and its code tables.
use crate::bits::{bits_new, bits_push, max_bits};
use crate::error::HuffError;
use crate::forest::{
    entry_symbols, huffman_tree, leaf_total, leaves_of, lemma_huffman_tree, lemma_leaf_queue,
    lemma_merge_step, merge_queue, separate,
};
use crate::min_heap::{enqueue_all, MinHeap};
use crate::table::{HuffTable, InverseHuffTable};
use crate::tree::HuffTree;
use std::collections::HashMap;
use vstd::bytes::{spec_u32_from_le_bytes, spec_u32_to_le_bytes, u32_from_le_bytes, u32_to_le_bytes};
use vstd::prelude::*;
use vstd::slice::slice_subrange;

verus! {

broadcast use vstd::std_specs::hash::group_hash_axioms;

/// A frequency table in canonical form: strictly ascending by symbol, and
/// every count at least 1.
pub open spec fn canonical(entries: Seq<(u8, u32)>) -> bool {
    &&& forall|i: int, j: int| 0 <= i < j < entries.len() ==> entries[i].0 < entries[j].0
    &&& forall|i: int| 0 <= i < entries.len() ==> (#[trigger] entries[i]).1 >= 1
}

/// The entries of `counts` for the symbols below `bound`, ascending by symbol;
/// a symbol counted 0 times has no entry.
pub open spec fn entries_below(counts: Map<u8, u32>, bound: nat) -> Seq<(u8, u32)>
    decreases bound,
{
    if bound == 0 {
        Seq::empty()
    } else {
        let byte = (bound - 1) as u8;
        let rest = entries_below(counts, (bound - 1) as nat);
        if counts.contains_key(byte) && counts[byte] >= 1 {
            rest.push((byte, counts[byte]))
        } else {
            rest
        }
    }
}

/// The canonical frequency table of `counts`.
pub open spec fn sorted_entries(counts: Map<u8, u32>) -> Seq<(u8, u32)> {
    entries_below(counts, 256)
}

/// The entries below a bound are canonical, name only symbols below the
/// bound, and are exactly the counted symbols with their counts.
pub proof fn lemma_entries_below(counts: Map<u8, u32>, bound: nat)
    requires
        bound <= 256,
    ensures
        canonical(entries_below(counts, bound)),
        entries_below(counts, bound).len() <= bound,
        forall|i: int|
            0 <= i < entries_below(counts, bound).len() ==> ({
                let e = #[trigger] entries_below(counts, bound)[i];
                e.0 < bound && counts.contains_key(e.0) && counts[e.0] == e.1
            }),
        forall|byte: u8|
            byte < bound && counts.contains_key(byte) && counts[byte] >= 1 ==> entries_below(
                counts,
                bound,
            ).contains((byte, #[trigger] counts[byte])),
    decreases bound,
{
    if bound > 0 {
        let last = (bound - 1) as u8;
        let rest = entries_below(counts, (bound - 1) as nat);
        let all = entries_below(counts, bound);
        lemma_entries_below(counts, (bound - 1) as nat);
        assert forall|byte: u8|
            byte < bound && counts.contains_key(byte) && counts[byte] >= 1 implies all.contains(
            (byte, #[trigger] counts[byte]),
        ) by {
            if byte < bound - 1 {
                let i = choose|i: int| 0 <= i < rest.len() && rest[i] == (byte, counts[byte]);
                assert(all[i] == (byte, counts[byte]));
            } else {
                assert(all[all.len() - 1] == (byte, counts[byte]));
            }
        }
    }
}

/// A canonical table has at most one entry for each of the 256 symbols.
pub proof fn lemma_canonical_len(entries: Seq<(u8, u32)>)
    requires
        canonical(entries),
    ensures
        entries.len() <= 256,
{
    assert forall|i: int| 0 <= i < entries.len() implies i <= (#[trigger] entries[i]).0 by {
        lemma_canonical_floor(entries, i);
    }
    if entries.len() > 256 {
        assert(entries[256].0 >= 256);
    }
}

proof fn lemma_canonical_floor(entries: Seq<(u8, u32)>, i: int)
    requires
        canonical(entries),
        0 <= i < entries.len(),
    ensures
        i <= entries[i].0,
    decreases i,
{
    if i > 0 {
        lemma_canonical_floor(entries, i - 1);
    }
}

/// The five bytes of one entry: the symbol, then the count in little-endian
/// order.
pub open spec fn entry_bytes(entry: (u8, u32)) -> Seq<u8> {
    seq![entry.0] + spec_u32_to_le_bytes(entry.1)
}

/// The serialized form of a frequency table: its entries' bytes in order.
pub open spec fn encode_entries(entries: Seq<(u8, u32)>) -> Seq<u8>
    decreases entries.len(),
{
    if entries.len() == 0 {
        Seq::empty()
    } else {
        encode_entries(entries.drop_last()) + entry_bytes(entries.last())
    }
}

/// The entry that the five bytes from position `5 * i` on stand for.
pub open spec fn entry_at(bytes: Seq<u8>, i: int) -> (u8, u32) {
    (bytes[5 * i], spec_u32_from_le_bytes(bytes.subrange(5 * i + 1, 5 * i + 5)))
}

/// The entries that `bytes` stand for, five bytes each.
pub open spec fn decode_entries(bytes: Seq<u8>) -> Seq<(u8, u32)> {
    Seq::new((bytes.len() / 5) as nat, |i: int| entry_at(bytes, i))
}

/// The frequency table that `bytes` serialize, if they serialize one: their
/// number is a multiple of five and the entries are canonical.
pub open spec fn parse_entries(bytes: Seq<u8>) -> Option<Seq<(u8, u32)>> {
    if bytes.len() % 5 == 0 && canonical(decode_entries(bytes)) {
        Some(decode_entries(bytes))
    } else {
        None
    }
}

/// A serialized table takes five bytes for each entry, and reading it back
/// gives the entries again.
pub proof fn lemma_encode_entries(entries: Seq<(u8, u32)>)
    ensures
        encode_entries(entries).len() == 5 * entries.len(),
        decode_entries(encode_entries(entries)) == entries,
    decreases entries.len(),
{
    vstd::bytes::lemma_auto_spec_u32_to_from_le_bytes();
    if entries.len() > 0 {
        let front = entries.drop_last();
        lemma_encode_entries(front);
        let bytes = encode_entries(entries);
        let head = encode_entries(front);
        let n = front.len() as int;
        assert(bytes.len() == 5 * entries.len());
        assert forall|i: int| 0 <= i < entries.len() implies entry_at(bytes, i) == entries[i] by {
            if i < n {
                assert(entry_at(head, i) == decode_entries(head)[i]);
                assert(bytes.subrange(5 * i + 1, 5 * i + 5) == head.subrange(5 * i + 1, 5 * i + 5));
                assert(bytes[5 * i] == head[5 * i]);
            } else {
                assert(bytes.subrange(5 * i + 1, 5 * i + 5) == spec_u32_to_le_bytes(
                    entries.last().1,
                ));
                assert(bytes[5 * i] == entry_bytes(entries.last())[0]);
            }
        }
        assert(decode_entries(bytes) =~= entries);
    } else {
        assert(decode_entries(encode_entries(entries)) =~= entries);
    }
}

/// A canonical table survives serialization: parsing its bytes gives it back.
pub proof fn lemma_parse_encode(entries: Seq<(u8, u32)>)
    requires
        canonical(entries),
    ensures
        parse_entries(encode_entries(entries)) == Some(entries),
{
    lemma_encode_entries(entries);
}

/// One symbol and how often it occurs.
#[derive(Debug)]
struct FrequencyEntry {
    byte: u8,
    freq: u32,
}

/// A frequency table: the symbols that occur, each with its count, ascending
/// by symbol.
#[derive(Debug)]
pub struct FrequencyList {
    entries: Vec<FrequencyEntry>,
}

impl View for FrequencyList {
    type V = Seq<(u8, u32)>;

    /// The entries as pairs of symbol and count.
    closed spec fn view(&self) -> Seq<(u8, u32)> {
        self.entries@.map_values(|e: FrequencyEntry| (e.byte, e.freq))
    }
}

impl FrequencyList {
    /// Every frequency table is canonical.
    #[verifier::type_invariant]
    pub open spec fn inv(&self) -> bool {
        canonical(self@)
    }

    /// The canonical table of `freq_map`: one entry for each symbol that the
    /// map counts at least once, ascending by symbol.
    pub fn from_hashmap(freq_map: &HashMap<u8, u32>) -> (list: Self)
        ensures
            list@ == sorted_entries(freq_map@),
            canonical(list@),
            forall|i: int|
                0 <= i < list@.len() ==> freq_map@.contains_key((#[trigger] list@[i]).0)
                    && freq_map@[list@[i].0] == list@[i].1,
            forall|byte: u8|
                freq_map@.contains_key(byte) && freq_map@[byte] >= 1 ==> list@.contains(
                    (byte, #[trigger] freq_map@[byte]),
                ),
    {
        let mut entries: Vec<FrequencyEntry> = Vec::new();
        let mut next: usize = 0;
        while next < 256
            invariant
                next <= 256,
                entries@.map_values(|e: FrequencyEntry| (e.byte, e.freq)) == entries_below(
                    freq_map@,
                    next as nat,
                ),
            decreases 256 - next,
        {
            let byte = next as u8;
            let ghost before = entries@.map_values(|e: FrequencyEntry| (e.byte, e.freq));
            match freq_map.get(&byte) {
                Some(freq) => {
                    if *freq >= 1 {
                        entries.push(FrequencyEntry { byte, freq: *freq });
                        assert(entries@.map_values(|e: FrequencyEntry| (e.byte, e.freq))
                            =~= before.push((byte, *freq)));
                    }
                },
                None => {},
            }
            next += 1;
        }
        proof {
            lemma_entries_below(freq_map@, 256);
        }
        FrequencyList { entries }
    }

    /// The entries as pairs of symbol and count, ascending by symbol.
    pub fn pairs(&self) -> (pairs: Vec<(u8, u32)>)
        ensures
            pairs@ == self@,
            canonical(self@),
    {
        proof {
            use_type_invariant(self);
        }
        let mut pairs: Vec<(u8, u32)> = Vec::new();
        let mut i: usize = 0;
        while i < self.entries.len()
            invariant
                i <= self.entries@.len(),
                pairs@ == self@.take(i as int),
            decreases self.entries@.len() - i,
        {
            pairs.push((self.entries[i].byte, self.entries[i].freq));
            assert(self@.take(i as int).push(self@[i as int]) == self@.take(i + 1));
            i += 1;
        }
        assert(self@.take(i as int) == self@);
        pairs
    }
    /// The serialized table: for each entry the symbol and the count in
    /// little-endian order, five bytes, ascending by symbol.
    pub fn to_bytes(&self) -> (bytes: Vec<u8>)
        ensures
            bytes@ == encode_entries(self@),
            bytes@.len() == 5 * self@.len(),
            bytes@.len() <= 1280,
            canonical(self@),
    {
        proof {
            use_type_invariant(self);
            lemma_canonical_len(self@);
        }
        let mut bytes: Vec<u8> = Vec::new();
        let mut i: usize = 0;
        while i < self.entries.len()
            invariant
                i <= self.entries@.len(),
                bytes@ == encode_entries(self@.take(i as int)),
            decreases self.entries@.len() - i,
        {
            bytes.push(self.entries[i].byte);
            let mut count = u32_to_le_bytes(self.entries[i].freq);
            bytes.append(&mut count);
            proof {
                assert(self@.take(i + 1).drop_last() == self@.take(i as int));
                assert(bytes@ =~= encode_entries(self@.take(i as int)) + entry_bytes(self@[i as int]));
            }
            i += 1;
        }
        proof {
            assert(self@.take(i as int) == self@);
            lemma_encode_entries(self@);
        }
        bytes
    }

    /// Reads a serialized table.  Fails when the bytes are not a whole number
    /// of five-byte entries, strictly ascending by symbol, each with a count
    /// of at least 1.
    pub fn from_bytes(bytes: &[u8]) -> (parsed: Result<Self, HuffError>)
        ensures
            (match parse_entries(bytes@) {
                Some(entries) => parsed.is_ok() && parsed.unwrap()@ == entries,
                None => parsed.is_err() && parsed.unwrap_err() == HuffError::DeserializationError,
            }),
    {
        if bytes.len() % 5 != 0 {
            return Err(HuffError::DeserializationError);
        }
        let count = bytes.len() / 5;
        let ghost all = decode_entries(bytes@);
        let mut entries: Vec<FrequencyEntry> = Vec::new();
        let mut i: usize = 0;
        while i < count
            invariant
                i <= count == all.len(),
                bytes@.len() == 5 * count <= usize::MAX,
                entries@.len() == i,
                all == decode_entries(bytes@),
                entries@.map_values(|e: FrequencyEntry| (e.byte, e.freq)) == all.take(i as int),
                canonical(all.take(i as int)),
            decreases count - i,
        {
            assert(5 * i + 5 <= bytes@.len());
            let byte = bytes[5 * i];
            let freq = u32_from_le_bytes(slice_subrange(bytes, 5 * i + 1, 5 * i + 5));
            assert(all[i as int] == (byte, freq));
            if freq < 1 {
                return Err(HuffError::DeserializationError);
            }
            if i > 0 && entries[i - 1].byte >= byte {
                assert(all.take(i as int)[i - 1] == all[i - 1]);
                return Err(HuffError::DeserializationError);
            }
            let ghost before = entries@.map_values(|e: FrequencyEntry| (e.byte, e.freq));
            entries.push(FrequencyEntry { byte, freq });
            proof {
                let now = all.take(i + 1);
                assert(entries@.map_values(|e: FrequencyEntry| (e.byte, e.freq)) =~= before.push(
                    (byte, freq),
                ));
                assert(now =~= before.push((byte, freq)));
                assert forall|a: int, b: int| 0 <= a < b < now.len() implies now[a].0
                    < now[b].0 by {
                    if b < i {
                        assert(before[a].0 < before[b].0);
                    } else if a < i - 1 {
                        assert(before[a].0 < before[i - 1].0);
                    }
                }
                assert forall|a: int| 0 <= a < now.len() implies (#[trigger] now[a]).1 >= 1 by {
                    if a < i {
                        assert(before[a].1 >= 1);
                    }
                }
            }
            i += 1;
        }
        assert(all.take(i as int) == all);
        Ok(FrequencyList { entries })
    }
}

/// The code of each symbol of `tree`.  A tree of a single leaf gives its
/// symbol the one-bit code 0, as if the leaf hung to the left of a root above
/// it; in any other tree the way from the root to a leaf is the leaf's code.
pub open spec fn code_table(tree: HuffTree) -> Map<u8, Seq<bool>> {
    match tree {
        HuffTree::Leaf { .. } => tree.codes(seq![false]),
        HuffTree::Node { .. } => tree.codes(Seq::empty()),
    }
}

/// The symbol of each code of `tree`: the inverse of [`code_table`].
pub open spec fn inverse_table(tree: HuffTree) -> Map<Seq<bool>, u8> {
    match tree {
        HuffTree::Leaf { .. } => tree.inverse_codes(seq![false]),
        HuffTree::Node { .. } => tree.inverse_codes(Seq::empty()),
    }
}

/// The table from symbols to codes of `tree`.
pub fn build_table(tree: &HuffTree) -> (table: HuffTable)
    requires
        tree.height() < max_bits(),
    ensures
        table@ == code_table(*tree),
{
    let mut code = bits_new();
    match tree {
        HuffTree::Leaf { .. } => {
            bits_push(&mut code, false);
            assert(code@ == seq![false]);
        },
        HuffTree::Node { .. } => {},
    }
    tree.pre_order_code(code)
}

/// The table from codes to symbols of `tree`.
pub fn build_inverse_table(tree: &HuffTree) -> (table: InverseHuffTable)
    requires
        tree.height() < max_bits(),
    ensures
        table@ == inverse_table(*tree),
{
    let mut code = bits_new();
    match tree {
        HuffTree::Leaf { .. } => {
            bits_push(&mut code, false);
            assert(code@ == seq![false]);
        },
        HuffTree::Node { .. } => {},
    }
    tree.pre_order_byte(code)
}

/// The Huffman tree of a frequency table; fails on a table without entries.
/// The leaves enter a minimum priority queue in the table's order; the two
/// lightest trees are then joined under a root that carries the sum of their
/// weights, the lighter one to the left, and put back, until one tree is
/// left.  That tree is well formed and has the table's symbols, each at one
/// leaf.
pub fn build_tree(freq_list: &FrequencyList) -> (built: Result<HuffTree, HuffError>)
    ensures
        freq_list@.len() == 0 ==> built == Err::<HuffTree, HuffError>(HuffError::EmptyInput),
        freq_list@.len() > 0 ==> built == Ok::<HuffTree, HuffError>(huffman_tree(freq_list@)),
        built is Ok ==> ({
            &&& built->Ok_0.wf()
            &&& built->Ok_0.distinct()
            &&& built->Ok_0.symbols() == entry_symbols(freq_list@)
            &&& built->Ok_0.height() < freq_list@.len() <= 256
        }),
{
    proof {
        use_type_invariant(freq_list);
        lemma_canonical_len(freq_list@);
        if freq_list@.len() > 0 {
            lemma_huffman_tree(freq_list@);
        }
    }
    let mut heap: MinHeap<HuffTree> = MinHeap::new();
    let mut i: usize = 0;
    while i < freq_list.entries.len()
        invariant
            i <= freq_list.entries@.len(),
            heap.wf(),
            heap@ == enqueue_all(leaves_of(freq_list@.take(i as int))),
        decreases freq_list.entries@.len() - i,
    {
        heap.push(HuffTree::leaf(freq_list.entries[i].byte, freq_list.entries[i].freq));
        proof {
            let now = freq_list@.take(i + 1);
            assert(leaves_of(now).drop_last() == leaves_of(freq_list@.take(i as int)));
            assert(leaves_of(now).last() == (HuffTree::Leaf {
                byte: freq_list.entries@[i as int].byte,
                freq: freq_list.entries@[i as int].freq,
            }));
        }
        i += 1;
    }
    proof {
        assert(freq_list@.take(i as int) == freq_list@);
        lemma_leaf_queue(freq_list@);
    }
    match merge(&mut heap) {
        Some(tree) => Ok(tree),
        None => Err(HuffError::EmptyInput),
    }
}

/// Joins the two lightest trees of the queue under a new root, the lighter
/// one to the left, until one tree is left, and takes that one out.
fn merge(heap: &mut MinHeap<HuffTree>) -> (tree: Option<HuffTree>)
    requires
        old(heap).wf(),
        separate(old(heap)@),
        leaf_total(old(heap)@) <= 0x1_0000_0000,
    ensures
        old(heap)@.len() == 0 ==> tree.is_none(),
        old(heap)@.len() > 0 ==> tree == Some(merge_queue(old(heap)@)),
        final(heap)@.len() == 0,
{
    while heap.len() > 1
        invariant
            heap.wf(),
            separate(heap@),
            leaf_total(heap@) <= 0x1_0000_0000,
            old(heap)@.len() == 0 ==> heap@.len() == 0,
            old(heap)@.len() > 0 ==> heap@.len() > 0 && merge_queue(heap@) == merge_queue(
                old(heap)@,
            ),
        decreases heap@.len(),
    {
        let ghost queue = heap@;
        proof {
            lemma_merge_step(queue);
        }
        let left = heap.pop()?;
        let right = heap.pop()?;
        assert(heap@ == queue.skip(2));
        heap.push(HuffTree::combine(left, right));
    }
    heap.pop()
}

} // verus!
