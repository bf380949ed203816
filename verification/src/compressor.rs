//! Compression: from a byte buffer to its container.
use crate::bits::{
    bits_as_raw_slice, bits_extend, bits_len, bits_new, bits_push, drain_byte, max_bits, BitBuf,
};
use crate::codes::lemma_tables;
use crate::error::HuffError;
use crate::forest::{entry_symbols, huffman_tree, lemma_huffman_tree};
use crate::huff::{
    build_table, build_tree, canonical, code_table, encode_entries, inverse_table,
    lemma_canonical_len, lemma_entries_below, sorted_entries, FrequencyList,
};
use crate::packing::{
    bit_at, byte_of, group, lemma_byte_of_bits, lemma_padding, lemma_same_bits, pack_bits,
    padding_of, whole_bytes, zeros,
};
use crate::table::HuffTable;
use std::collections::HashMap;
use vstd::bytes::{spec_u32_to_le_bytes, u32_to_le_bytes};
use vstd::prelude::*;

verus! {

broadcast use vstd::std_specs::hash::group_hash_axioms;

/// How often `byte` occurs in `data`.
pub open spec fn occurrences(data: Seq<u8>, byte: u8) -> nat
    decreases data.len(),
{
    if data.len() == 0 {
        0
    } else {
        occurrences(data.drop_last(), byte) + if data.last() == byte {
            1nat
        } else {
            0nat
        }
    }
}

/// The count that `counts` holds for `byte`, 0 where it holds none.
pub open spec fn count_in(counts: Map<u8, u32>, byte: u8) -> nat {
    if counts.contains_key(byte) {
        counts[byte] as nat
    } else {
        0
    }
}

/// The counts `counts` after every byte of `data` has been counted in.
pub open spec fn tally(counts: Map<u8, u32>, data: Seq<u8>) -> Map<u8, u32> {
    Map::new(
        |byte: u8| counts.contains_key(byte) || occurrences(data, byte) > 0,
        |byte: u8| (count_in(counts, byte) + occurrences(data, byte)) as u32,
    )
}

/// No byte occurs in `data` more often than the 32 bits of a count can say.
pub open spec fn countable(data: Seq<u8>) -> bool {
    forall|byte: u8| occurrences(data, byte) <= u32::MAX
}

/// The canonical frequency table of `data`.
pub open spec fn frequencies(data: Seq<u8>) -> Seq<(u8, u32)> {
    sorted_entries(tally(Map::empty(), data))
}

/// Every byte of `data` has a code in `table`.
pub open spec fn covers(table: Map<u8, Seq<bool>>, data: Seq<u8>) -> bool {
    forall|i: int| 0 <= i < data.len() ==> table.contains_key(#[trigger] data[i])
}

/// The codes of the bytes of `data`, one behind the other.
pub open spec fn encode_bits(data: Seq<u8>, table: Map<u8, Seq<bool>>) -> Seq<bool>
    decreases data.len(),
{
    if data.len() == 0 {
        Seq::empty()
    } else {
        encode_bits(data.drop_last(), table) + table[data.last()]
    }
}

/// The first `count` bytes that `bits` fill, eight bits each.
pub open spec fn first_bytes(bits: Seq<bool>, count: nat) -> Seq<u8> {
    Seq::new(count, |k: int| byte_of(group(bits, k)))
}

/// A byte occurs in a buffer at most as often as the buffer is long, and at
/// least once where it stands in it.
pub proof fn lemma_occurrences(data: Seq<u8>, byte: u8)
    ensures
        occurrences(data, byte) <= data.len(),
        occurrences(data, byte) > 0 <==> data.contains(byte),
    decreases data.len(),
{
    if data.len() > 0 {
        let front = data.drop_last();
        lemma_occurrences(front, byte);
        if front.contains(byte) {
            let i = choose|i: int| 0 <= i < front.len() && front[i] == byte;
            assert(data[i] == byte);
        }
        if data.contains(byte) && data.last() != byte {
            let i = choose|i: int| 0 <= i < data.len() && data[i] == byte;
            assert(front[i] == byte);
        }
        if data.last() == byte {
            assert(data[data.len() - 1] == byte);
        }
    }
}

/// A byte occurs in the beginning of a buffer at most as often as in the
/// whole of it.
pub proof fn lemma_occurrences_take(data: Seq<u8>, byte: u8, n: int)
    requires
        0 <= n <= data.len(),
    ensures
        occurrences(data.take(n), byte) <= occurrences(data, byte),
    decreases data.len(),
{
    if n < data.len() {
        assert(data.drop_last().take(n) == data.take(n));
        lemma_occurrences_take(data.drop_last(), byte, n);
    } else {
        assert(data.take(n) == data);
    }
}

/// Counts every byte of `data` into `freq`.
pub fn count_byte_frequency(data: &Vec<u8>, freq: &mut HashMap<u8, u32>)
    requires
        forall|byte: u8| count_in(old(freq)@, byte) + occurrences(data@, byte) <= u32::MAX,
    ensures
        final(freq)@ == tally(old(freq)@, data@),
{
    assert(freq@ =~= tally(old(freq)@, data@.take(0)));
    let mut i: usize = 0;
    while i < data.len()
        invariant
            i <= data@.len(),
            freq@ == tally(old(freq)@, data@.take(i as int)),
            forall|byte: u8| count_in(old(freq)@, byte) + occurrences(data@, byte) <= u32::MAX,
        decreases data@.len() - i,
    {
        let byte = data[i];
        let ghost before = freq@;
        proof {
            lemma_occurrences_take(data@, byte, i + 1);
            assert(data@.take(i + 1).drop_last() == data@.take(i as int));
        }
        *freq.entry(byte).or_insert(0) += 1;
        assert(freq@ =~= tally(old(freq)@, data@.take(i + 1)));
        i += 1;
    }
    assert(data@.take(i as int) == data@);
}

/// The bytes that a growing bit string has filled do not change when bits are
/// appended, and one more group of eight bits gives one more byte.
pub proof fn lemma_first_bytes(bits: Seq<bool>, more: Seq<bool>, count: nat)
    requires
        8 * count <= bits.len(),
    ensures
        first_bytes(bits + more, count) == first_bytes(bits, count),
        8 * count + 8 <= bits.len() ==> first_bytes(bits, count + 1) == first_bytes(
            bits,
            count,
        ).push(byte_of(bits.skip(8 * count as int).take(8))),
        first_bytes(bits, (bits.len() / 8) as nat) == whole_bytes(bits),
{
    assert forall|k: int| 0 <= k < count implies #[trigger] group(bits + more, k) == group(
        bits,
        k,
    ) by {}
    assert(first_bytes(bits + more, count) =~= first_bytes(bits, count));
    if 8 * count + 8 <= bits.len() {
        assert(bits.skip(8 * count as int).take(8) == group(bits, count as int));
        assert(first_bytes(bits, count + 1) =~= first_bytes(bits, count).push(
            byte_of(bits.skip(8 * count as int).take(8)),
        ));
    }
}

/// Packing a bit string is packing its whole bytes and then what is left.
pub proof fn lemma_pack_split(bits: Seq<bool>)
    ensures
        pack_bits(bits) == whole_bytes(bits) + pack_bits(bits.skip(8 * (bits.len() / 8) as int)),
        padding_of(bits.skip(8 * (bits.len() / 8) as int).len()) == padding_of(bits.len()),
{
    let done = (bits.len() / 8) as int;
    let rest = bits.skip(8 * done);
    let pad = zeros(padding_of(bits.len()));
    assert(padding_of(rest.len()) == padding_of(bits.len()));
    let padded = bits + pad;
    let padded_rest = rest + pad;
    assert forall|k: int| 0 <= k < pack_bits(bits).len() implies pack_bits(bits)[k] == (whole_bytes(
        bits,
    ) + pack_bits(rest))[k] by {
        if k < done {
            assert(group(padded, k) == group(bits, k));
        } else {
            assert(group(padded, k) == group(padded_rest, k - done));
        }
    }
    assert(pack_bits(bits) =~= whole_bytes(bits) + pack_bits(rest));
}

/// Takes the first eight bits out of `buffer` and writes the byte that holds
/// them, the first bit as the most significant one.
fn write_first_byte(buffer: &mut BitBuf, writer: &mut Vec<u8>)
    requires
        old(buffer)@.len() >= 8,
    ensures
        final(buffer)@ == old(buffer)@.skip(8),
        final(writer)@ == old(writer)@.push(byte_of(old(buffer)@.take(8))),
{
    let ghost first = buffer@.take(8);
    let byte = drain_byte(buffer);
    let raw = bits_as_raw_slice(&byte);
    let value = raw[0];
    proof {
        lemma_byte_of_bits(first);
        assert forall|j: int| 0 <= j < 8 implies bit_at(value, j) == bit_at(byte_of(first), j) by {
            assert(byte@[7 - j] == first[j]);
            assert((value >> ((7 - j) as u8)) & 1 == 1 <==> byte@[7 - j]);
        }
        lemma_same_bits(value, byte_of(first));
    }
    writer.push(value);
}

/// Appends the code of each byte of `content` to `buffer` and writes every
/// whole byte that the buffer then holds; up to seven bits stay behind in
/// the buffer.  Fails when a byte has no code.
pub fn write_complete_bytes(
    buffer: &mut BitBuf,
    huff_table: &HuffTable,
    content: &Vec<u8>,
    writer: &mut Vec<u8>,
) -> (done: Result<(), HuffError>)
    requires
        old(buffer)@.len() < 8,
        forall|byte: u8| #[trigger]
            huff_table@.contains_key(byte) ==> huff_table@[byte].len() + 8 <= max_bits(),
    ensures
        covers(huff_table@, content@) ==> done.is_ok() && ({
            let all = old(buffer)@ + encode_bits(content@, huff_table@);
            &&& final(writer)@ == old(writer)@ + whole_bytes(all)
            &&& final(buffer)@ == all.skip(8 * (all.len() / 8) as int)
        }),
        !covers(huff_table@, content@) ==> done == Err::<(), HuffError>(HuffError::MissingCode),
{
    let ghost mut all = buffer@;
    let ghost mut count = 0nat;
    proof {
        assert(buffer@ + encode_bits(content@.take(0), huff_table@) == buffer@);
        assert(writer@ =~= writer@ + first_bytes(all, 0));
    }
    let mut i: usize = 0;
    while i < content.len()
        invariant
            i <= content@.len(),
            covers(huff_table@, content@.take(i as int)),
            all == old(buffer)@ + encode_bits(content@.take(i as int), huff_table@),
            8 * count <= all.len() < 8 * count + 8,
            buffer@ == all.skip(8 * count as int),
            writer@ == old(writer)@ + first_bytes(all, count),
            forall|byte: u8| #[trigger]
                huff_table@.contains_key(byte) ==> huff_table@[byte].len() + 8 <= max_bits(),
        decreases content@.len() - i,
    {
        let byte = content[i];
        let byte_code = match huff_table.get(byte) {
            Some(code) => code,
            None => {
                assert(!huff_table@.contains_key(content@[i as int]));
                return Err(HuffError::MissingCode);
            },
        };
        bits_extend(buffer, byte_code);
        proof {
            let grown = all + byte_code@;
            assert(content@.take(i + 1).drop_last() == content@.take(i as int));
            assert(grown == old(buffer)@ + encode_bits(content@.take(i + 1), huff_table@));
            lemma_first_bytes(all, byte_code@, count);
            assert(buffer@ == grown.skip(8 * count as int));
            assert forall|k: int| 0 <= k < i + 1 implies huff_table@.contains_key(
                #[trigger] content@.take(i + 1)[k],
            ) by {
                if k < i {
                    assert(content@.take(i as int)[k] == content@[k]);
                }
            }
            all = grown;
        }
        while bits_len(buffer) >= 8
            invariant
                8 * count <= all.len(),
                buffer@ == all.skip(8 * count as int),
                writer@ == old(writer)@ + first_bytes(all, count),
            decreases buffer@.len(),
        {
            proof {
                lemma_first_bytes(all, Seq::empty(), count);
                assert(all.skip(8 * count as int).skip(8) == all.skip(8 * (count + 1) as int));
            }
            write_first_byte(buffer, writer);
            proof {
                count = count + 1;
                assert(writer@ =~= old(writer)@ + first_bytes(all, count));
            }
        }
        i += 1;
    }
    proof {
        assert(content@.take(i as int) == content@);
        lemma_first_bytes(all, Seq::empty(), count);
        assert(count == all.len() / 8);
    }
    Ok(())
}

/// Fills the bits left in `buffer` up to a whole byte with 0 bits, writes the
/// byte, and returns the number of bits filled in.  Writes nothing when the
/// buffer is empty.
pub fn write_last_byte(buffer: &mut BitBuf, writer: &mut Vec<u8>) -> (padding: u8)
    requires
        old(buffer)@.len() <= 8,
    ensures
        padding == padding_of(old(buffer)@.len()),
        final(writer)@ == old(writer)@ + pack_bits(old(buffer)@),
        final(buffer)@.len() == 0,
{
    let mut padding: usize = 0;
    let len = bits_len(buffer);
    proof {
        lemma_padding(old(buffer)@.len());
    }
    if len != 0 {
        padding = 8 - len;
        let mut filled: usize = 0;
        while filled < padding
            invariant
                filled <= padding == 8 - old(buffer)@.len(),
                buffer@ == old(buffer)@ + zeros(filled as nat),
            decreases padding - filled,
        {
            bits_push(buffer, false);
            assert(buffer@ =~= old(buffer)@ + zeros((filled + 1) as nat));
            filled += 1;
        }
        let ghost padded = buffer@;
        write_first_byte(buffer, writer);
        proof {
            assert(padded.take(8) == group(padded, 0));
            assert(pack_bits(old(buffer)@) =~= seq![byte_of(padded.take(8))]);
        }
    } else {
        assert(pack_bits(old(buffer)@) =~= Seq::<u8>::empty());
    }
    padding as u8
}

/// Writes the bit stream of `content`: the codes of its bytes packed into
/// bytes, the last one filled up with 0 bits.  Returns how many bits were
/// filled in: none exactly when the codes fill whole bytes.
pub fn write_encoded_content(
    huff_table: &HuffTable,
    content: &Vec<u8>,
    writer: &mut Vec<u8>,
) -> (padding: Result<u8, HuffError>)
    requires
        forall|byte: u8| #[trigger]
            huff_table@.contains_key(byte) ==> huff_table@[byte].len() + 8 <= max_bits(),
    ensures
        covers(huff_table@, content@) ==> padding.is_ok() && ({
            let bits = encode_bits(content@, huff_table@);
            &&& padding.unwrap() == padding_of(bits.len())
            &&& padding.unwrap() <= 7
            &&& (padding.unwrap() == 0 <==> bits.len() % 8 == 0)
            &&& final(writer)@ == old(writer)@ + pack_bits(bits)
        }),
        !covers(huff_table@, content@) ==> padding == Err::<u8, HuffError>(
            HuffError::MissingCode,
        ),
{
    let mut buffer = bits_new();
    let ghost bits = encode_bits(content@, huff_table@);
    proof {
        assert(buffer@ + bits == bits);
        lemma_pack_split(bits);
        lemma_padding(bits.len());
    }
    match write_complete_bytes(&mut buffer, huff_table, content, writer) {
        Ok(()) => {},
        Err(e) => {
            return Err(e);
        },
    }
    let padding = write_last_byte(&mut buffer, writer);
    proof {
        assert(writer@ =~= old(writer)@ + pack_bits(bits));
    }
    Ok(padding)
}

/// Writes the container's head: a byte that will hold the padding count, the
/// length of the serialized frequency table as four bytes in little-endian
/// order, and the serialized table.
pub fn write_header(freq_list: &FrequencyList, writer: &mut Vec<u8>)
    ensures
        final(writer)@ == old(writer)@ + seq![0u8] + spec_u32_to_le_bytes(
            encode_entries(freq_list@).len() as u32,
        ) + encode_entries(freq_list@),
        encode_entries(freq_list@).len() <= 1280,
{
    let mut serialized_header = freq_list.to_bytes();
    writer.push(0);
    let mut length = u32_to_le_bytes(serialized_header.len() as u32);
    writer.append(&mut length);
    writer.append(&mut serialized_header);
}

/// Puts the padding count into the first byte of the container.
pub fn write_padding_bits_into_header(padding: u8, writer: &mut Vec<u8>)
    requires
        old(writer)@.len() > 0,
    ensures
        final(writer)@ == old(writer)@.update(0, padding),
{
    writer[0] = padding;
}

/// The container of `data`: the padding count, the length of the serialized
/// frequency table in four bytes, the table, and the packed codes of the
/// data's bytes under the Huffman tree of the table.
pub open spec fn container_of(data: Seq<u8>) -> Seq<u8> {
    let header = encode_entries(frequencies(data));
    let bits = encode_bits(data, code_table(huffman_tree(frequencies(data))));
    seq![padding_of(bits.len()) as u8] + spec_u32_to_le_bytes(header.len() as u32) + header
        + pack_bits(bits)
}

/// What compressing `data` gives: no container for an empty buffer, and
/// [`container_of`] for any other.
pub open spec fn compressed(data: Seq<u8>) -> Result<Seq<u8>, HuffError> {
    if data.len() == 0 {
        Err(HuffError::EmptyInput)
    } else {
        Ok(container_of(data))
    }
}

/// The result `container` is what compressing `data` gives.
pub open spec fn compresses_to(data: Seq<u8>, container: Result<Vec<u8>, HuffError>) -> bool {
    match compressed(data) {
        Ok(bytes) => container is Ok && container->Ok_0@ == bytes,
        Err(e) => container is Err && container->Err_0 == e,
    }
}

/// The frequency table of a buffer is canonical and names exactly the bytes
/// that occur in it, each with the number of its occurrences.
pub proof fn lemma_frequencies(data: Seq<u8>)
    requires
        countable(data),
    ensures
        canonical(frequencies(data)),
        frequencies(data).len() <= 256,
        data.len() > 0 ==> frequencies(data).len() > 0,
        forall|byte: u8| entry_symbols(frequencies(data)).contains(byte) <==> data.contains(byte),
        forall|i: int|
            0 <= i < frequencies(data).len() ==> (#[trigger] frequencies(data)[i]).1
                == occurrences(data, frequencies(data)[i].0),
{
    let counts = tally(Map::empty(), data);
    let entries = frequencies(data);
    lemma_entries_below(counts, 256);
    lemma_canonical_len(entries);
    assert forall|byte: u8| entry_symbols(entries).contains(byte) <==> data.contains(byte) by {
        lemma_occurrences(data, byte);
        if data.contains(byte) {
            assert(counts.contains_key(byte) && counts[byte] >= 1);
            assert(entries.contains((byte, counts[byte])));
            let i = choose|i: int| 0 <= i < entries.len() && entries[i] == (byte, counts[byte]);
            assert(entries[i].0 == byte);
        }
        if entry_symbols(entries).contains(byte) {
            let i = choose|i: int| 0 <= i < entries.len() && (#[trigger] entries[i]).0 == byte;
            assert(counts.contains_key(entries[i].0));
        }
    }
    if data.len() > 0 {
        assert(data.contains(data[0]));
        assert(entry_symbols(entries).contains(data[0]));
    }
    assert forall|i: int| 0 <= i < entries.len() implies (#[trigger] entries[i]).1 == occurrences(
        data,
        entries[i].0,
    ) by {
        lemma_occurrences(data, entries[i].0);
    }
}

/// The code table of the Huffman tree of a frequency table.
pub fn build_compression_table(freq_list: &FrequencyList) -> (table: Result<HuffTable, HuffError>)
    ensures
        freq_list@.len() == 0 ==> table is Err && table->Err_0 == HuffError::EmptyInput,
        freq_list@.len() > 0 ==> table is Ok && table->Ok_0@ == code_table(
            huffman_tree(freq_list@),
        ),
{
    let ghost entries = freq_list@;
    let tree = match build_tree(freq_list) {
        Ok(tree) => tree,
        Err(e) => {
            return Err(e);
        },
    };
    proof {
        use_type_invariant(freq_list);
        lemma_canonical_len(entries);
        lemma_huffman_tree(entries);
    }
    Ok(build_table(&tree))
}

/// A buffer of at most 2^32 - 1 bytes is countable.
pub proof fn lemma_short_is_countable(data: Seq<u8>)
    requires
        data.len() <= u32::MAX,
    ensures
        countable(data),
{
    assert forall|byte: u8| occurrences(data, byte) <= u32::MAX by {
        lemma_occurrences(data, byte);
    }
}

/// Whether no byte occurs in `content` more often than the 32 bits of a
/// count can say, which is what [`huff_compress`] asks of its input.
pub fn counts_fit(content: &Vec<u8>) -> (fit: bool)
    ensures
        fit == countable(content@),
{
    if content.len() <= 0xffff_ffff {
        proof {
            lemma_short_is_countable(content@);
        }
        return true;
    }
    let mut counts: Vec<u64> = Vec::new();
    while counts.len() < 256
        invariant
            counts@.len() <= 256,
            forall|k: int| 0 <= k < counts@.len() ==> counts@[k] == 0,
        decreases 256 - counts@.len(),
    {
        counts.push(0);
    }
    let mut i: usize = 0;
    while i < content.len()
        invariant
            i <= content@.len(),
            counts@.len() == 256,
            forall|byte: u8| #[trigger] counts@[byte as int] == occurrences(content@.take(i as int), byte),
        decreases content@.len() - i,
    {
        let byte = content[i];
        proof {
            assert(content@.take(i + 1).drop_last() == content@.take(i as int));
            lemma_occurrences(content@.take(i as int), byte);
        }
        let ghost before = counts@;
        let count = counts[byte as usize];
        counts[byte as usize] = count + 1;
        assert forall|other: u8| #[trigger] counts@[other as int] == occurrences(
            content@.take(i + 1),
            other,
        ) by {
            assert(before[other as int] == occurrences(content@.take(i as int), other));
        }
        i += 1;
    }
    assert(content@.take(i as int) == content@);
    let mut next: usize = 0;
    while next < 256
        invariant
            next <= 256,
            counts@.len() == 256,
            forall|byte: u8| #[trigger] counts@[byte as int] == occurrences(content@, byte),
            forall|byte: u8| byte < next ==> occurrences(content@, byte) <= u32::MAX,
        decreases 256 - next,
    {
        if counts[next] > 0xffff_ffff {
            assert(counts@[(next as u8) as int] == occurrences(content@, next as u8));
            return false;
        }
        assert forall|byte: u8| byte < next + 1 implies occurrences(content@, byte) <= u32::MAX by {
            if byte == next {
                assert(counts@[byte as int] == occurrences(content@, byte));
            }
        }
        next += 1;
    }
    true
}

/// Compresses `content` into its container.  Fails on an empty buffer.  The
/// container counts each symbol in 32 bits, so no byte may occur more often
/// than that.
pub fn huff_compress(content: &Vec<u8>) -> (container: Result<Vec<u8>, HuffError>)
    requires
        countable(content@),
    ensures
        compresses_to(content@, container),
{
    let mut freq_map: HashMap<u8, u32> = HashMap::new();
    proof {
        lemma_frequencies(content@);
    }
    count_byte_frequency(content, &mut freq_map);
    let freq_list = FrequencyList::from_hashmap(&freq_map);
    let table = match build_compression_table(&freq_list) {
        Ok(table) => table,
        Err(e) => {
            return Err(e);
        },
    };
    proof {
        let tree = huffman_tree(freq_list@);
        lemma_huffman_tree(freq_list@);
        lemma_tables(tree);
        assert forall|i: int| 0 <= i < content@.len() implies table@.contains_key(
            #[trigger] content@[i],
        ) by {
            assert(content@.contains(content@[i]));
            assert(entry_symbols(freq_list@).contains(content@[i]));
            assert(tree.symbols().contains(content@[i]));
            assert(code_table(tree).dom().contains(content@[i]));
        }
        assert forall|byte: u8| #[trigger] table@.contains_key(byte) implies table@[byte].len() + 8
            <= max_bits() by {
            assert(inverse_table(tree).contains_key(table@[byte]));
        }
    }
    let mut writer: Vec<u8> = Vec::new();
    write_header(&freq_list, &mut writer);
    let padding = match write_encoded_content(&table, content, &mut writer) {
        Ok(padding) => padding,
        Err(e) => {
            return Err(e);
        },
    };
    write_padding_bits_into_header(padding, &mut writer);
    assert(writer@ =~= container_of(content@));
    Ok(writer)
}

} // verus!
