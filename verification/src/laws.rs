//! What holds of compression and decompression together.
use crate::codes::{decodable, lemma_tables};
use crate::compressor::{
    compressed, compresses_to, container_of, countable, covers, encode_bits, frequencies,
    lemma_frequencies, occurrences,
};
use crate::decompressor::{
    decompressed, decompresses_to, header_of, lemma_decode_encode, payload_bits,
};
use crate::error::HuffError;
use crate::forest::{entry_symbols, huffman_tree, lemma_huffman_tree};
use crate::huff::{
    canonical, code_table, encode_entries, inverse_table, lemma_canonical_len,
    lemma_encode_entries, lemma_parse_encode,
};
use crate::packing::{lemma_padding, lemma_unpack_pack, pack_bits, padding_of};
use vstd::bytes::{lemma_auto_spec_u32_to_from_le_bytes, spec_u32_to_le_bytes};
use vstd::prelude::*;

verus! {

/// The container of a buffer begins with a head that reads back as the
/// buffer's frequency table, and the packed codes of the buffer's bytes
/// follow right behind the table.
pub proof fn lemma_container_layout(data: Seq<u8>)
    requires
        countable(data),
    ensures
        header_of(container_of(data)) == Ok::<(Seq<(u8, u32)>, u8, nat), HuffError>(
            (
                frequencies(data),
                container_of(data)[0],
                (5 + 5 * frequencies(data).len()) as nat,
            ),
        ),
        container_of(data)[0] == padding_of(
            encode_bits(data, code_table(huffman_tree(frequencies(data)))).len(),
        ),
        container_of(data).skip(5 + 5 * frequencies(data).len() as int) == pack_bits(
            encode_bits(data, code_table(huffman_tree(frequencies(data)))),
        ),
{
    let entries = frequencies(data);
    let header = encode_entries(entries);
    let bits = encode_bits(data, code_table(huffman_tree(entries)));
    let length = spec_u32_to_le_bytes(header.len() as u32);
    let container = container_of(data);
    lemma_frequencies(data);
    lemma_encode_entries(entries);
    lemma_parse_encode(entries);
    lemma_auto_spec_u32_to_from_le_bytes();
    lemma_padding(bits.len());
    assert(length.len() == 4);
    assert(container.len() == 5 + header.len() + pack_bits(bits).len());
    assert(container[0] == padding_of(bits.len()) as u8);
    assert(container.subrange(1, 5) == length);
    assert(container.subrange(5, 5 + header.len() as int) == header);
    assert(container.skip(5 + header.len() as int) == pack_bits(bits));
}

/// The frequency table in the head of a container stands strictly ascending
/// by symbol, and counts each byte of the buffer as often as it occurs.
pub proof fn lemma_header_canonical(data: Seq<u8>)
    requires
        countable(data),
    ensures
        header_of(container_of(data)) is Ok,
        ({
            let entries = header_of(container_of(data))->Ok_0.0;
            &&& forall|i: int, j: int| 0 <= i < j < entries.len() ==> entries[i].0 < entries[j].0
            &&& forall|i: int|
                0 <= i < entries.len() ==> (#[trigger] entries[i]).1 == occurrences(
                    data,
                    entries[i].0,
                ) && entries[i].1 >= 1
            &&& forall|byte: u8| data.contains(byte) ==> exists|i: int|
                0 <= i < entries.len() && (#[trigger] entries[i]).0 == byte
        }),
{
    lemma_container_layout(data);
    lemma_frequencies(data);
    let entries = frequencies(data);
    assert forall|byte: u8| data.contains(byte) implies exists|i: int|
        0 <= i < entries.len() && (#[trigger] entries[i]).0 == byte by {
        assert(entry_symbols(entries).contains(byte));
    }
    assert(header_of(container_of(data))->Ok_0.0 == entries);
    assert(canonical(entries));
    assert forall|i: int| 0 <= i < entries.len() implies (#[trigger] entries[i]).1 == occurrences(
        data,
        entries[i].0,
    ) && entries[i].1 >= 1 by {}
}

/// The padding count of a container is at most 7, and it is 0 exactly when
/// the codes of the buffer's bytes fill whole bytes.
pub proof fn lemma_padding_bound(data: Seq<u8>)
    requires
        countable(data),
    ensures
        0 <= container_of(data)[0] <= 7,
        container_of(data)[0] == 0 <==> encode_bits(
            data,
            code_table(huffman_tree(frequencies(data))),
        ).len() % 8 == 0,
{
    lemma_container_layout(data);
    lemma_padding(encode_bits(data, code_table(huffman_tree(frequencies(data)))).len());
}

/// The code table of a buffer's Huffman tree has a code for every byte of
/// the buffer, and the tree's two tables read a stream of codes back.
pub proof fn lemma_codes_cover(data: Seq<u8>)
    requires
        data.len() > 0,
        countable(data),
    ensures
        covers(code_table(huffman_tree(frequencies(data))), data),
        decodable(
            code_table(huffman_tree(frequencies(data))),
            inverse_table(huffman_tree(frequencies(data))),
        ),
{
    let entries = frequencies(data);
    let tree = huffman_tree(entries);
    let table = code_table(tree);
    lemma_frequencies(data);
    lemma_huffman_tree(entries);
    lemma_tables(tree);
    assert forall|i: int| 0 <= i < data.len() implies table.contains_key(#[trigger] data[i]) by {
        assert(data.contains(data[i]));
        assert(entry_symbols(entries).contains(data[i]));
        assert(table.dom().contains(data[i]));
    }
}

/// The two tables of a frequency table's Huffman tree cover exactly the
/// symbols of the frequency table: each of them has a code, no other symbol
/// has one, and every code of the inverse table stands for one of them.
pub proof fn lemma_tables_cover(entries: Seq<(u8, u32)>)
    requires
        entries.len() > 0,
        canonical(entries),
    ensures
        code_table(huffman_tree(entries)).dom() == entry_symbols(entries),
        forall|code: Seq<bool>| #[trigger]
            inverse_table(huffman_tree(entries)).contains_key(code) ==> entry_symbols(
                entries,
            ).contains(inverse_table(huffman_tree(entries))[code]),
        forall|byte: u8|
            entry_symbols(entries).contains(byte) ==> inverse_table(
                huffman_tree(entries),
            ).contains_key(#[trigger] code_table(huffman_tree(entries))[byte]),
{
    lemma_canonical_len(entries);
    lemma_huffman_tree(entries);
    lemma_tables(huffman_tree(entries));
    let table = code_table(huffman_tree(entries));
    assert forall|byte: u8| entry_symbols(entries).contains(byte) implies inverse_table(
        huffman_tree(entries),
    ).contains_key(#[trigger] table[byte]) by {
        assert(table.dom().contains(byte));
        assert(table.contains_key(byte));
    }
}

/// The packed bytes of a bit string, without the padding bits, hold the bit
/// string.
pub proof fn lemma_payload(bits: Seq<bool>)
    ensures
        payload_bits(pack_bits(bits), padding_of(bits.len())) == bits,
{
    lemma_unpack_pack(bits);
    lemma_padding(bits.len());
    if pack_bits(bits).len() == 0 {
        assert(bits.len() == 0);
        assert(bits =~= Seq::<bool>::empty());
    }
}

/// Decompressing the container of a buffer that is not empty gives the
/// buffer back.
pub proof fn lemma_round_trip(data: Seq<u8>)
    requires
        data.len() > 0,
        countable(data),
    ensures
        decompressed(container_of(data)) == Ok::<Seq<u8>, HuffError>(data),
{
    let entries = frequencies(data);
    let tree = huffman_tree(entries);
    let bits = encode_bits(data, code_table(tree));
    lemma_container_layout(data);
    lemma_frequencies(data);
    lemma_codes_cover(data);
    lemma_decode_encode(data, code_table(tree), inverse_table(tree));
    lemma_payload(bits);
}

/// Two results of compressing one buffer, each as [`compresses_to`] describes
/// it, are the same: both the same container, byte for byte, or both the
/// same error.
pub proof fn lemma_deterministic(
    data: Seq<u8>,
    first: Result<Vec<u8>, HuffError>,
    second: Result<Vec<u8>, HuffError>,
)
    requires
        compresses_to(data, first),
        compresses_to(data, second),
    ensures
        first is Ok <==> second is Ok,
        first is Ok ==> first->Ok_0@ == second->Ok_0@,
        first is Err ==> first->Err_0 == second->Err_0,
{
}

/// A buffer that was compressed and then decompressed, each step as its
/// contract describes it, is the buffer that went in.
pub proof fn lemma_compress_then_decompress(
    data: Seq<u8>,
    container: Result<Vec<u8>, HuffError>,
    content: Result<Vec<u8>, HuffError>,
)
    requires
        data.len() > 0,
        countable(data),
        compresses_to(data, container),
        container is Ok ==> decompresses_to(container->Ok_0@, content),
    ensures
        container is Ok,
        content is Ok,
        content->Ok_0@ == data,
{
    lemma_round_trip(data);
}

} // verus!
