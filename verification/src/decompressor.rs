//! Decompression: from a container back to the byte buffer.
use crate::bits::{bits_clear, bits_len, bits_new, bits_push, max_bits, BitBuf};
use crate::codes::decodable;
use crate::compressor::{covers, encode_bits};
use crate::error::HuffError;
use crate::forest::{huffman_tree, lemma_huffman_tree};
use crate::huff::{
    build_inverse_table, build_tree, inverse_table, lemma_canonical_len, parse_entries,
    FrequencyList,
};
use crate::packing::{bit_at, unpack_bits};
use crate::table::InverseHuffTable;
use vstd::bytes::{spec_u32_from_le_bytes, u32_from_le_bytes};
use vstd::prelude::*;
use vstd::slice::slice_subrange;

verus! {

/// What the decoder holds after some bits: the symbols read so far, and the
/// bits read since the last symbol.
pub type DecodeState = (Seq<u8>, Seq<bool>);

/// The decoder's state after one more bit: the bit joins the pending bits,
/// and where these are now a code, its symbol is read and no bit is pending.
pub open spec fn decode_step(
    state: DecodeState,
    bit: bool,
    inverse: Map<Seq<bool>, u8>,
) -> DecodeState {
    let grown = state.1.push(bit);
    if inverse.contains_key(grown) {
        (state.0.push(inverse[grown]), Seq::empty())
    } else {
        (state.0, grown)
    }
}

/// The decoder's state after the bits `bits`, from the state `state` on.
pub open spec fn decode_from(
    state: DecodeState,
    bits: Seq<bool>,
    inverse: Map<Seq<bool>, u8>,
) -> DecodeState
    decreases bits.len(),
{
    if bits.len() == 0 {
        state
    } else {
        decode_step(decode_from(state, bits.drop_last(), inverse), bits.last(), inverse)
    }
}

/// The symbols that `bits` stand for, or `None` where bits are left over
/// behind the last code.
pub open spec fn decode_bits(bits: Seq<bool>, inverse: Map<Seq<bool>, u8>) -> Option<Seq<u8>> {
    let end = decode_from((Seq::empty(), Seq::empty()), bits, inverse);
    if end.1.len() == 0 {
        Some(end.0)
    } else {
        None
    }
}

/// The bits of `stream` that carry codes: all but the last `padding` bits of
/// its last byte.
pub open spec fn payload_bits(stream: Seq<u8>, padding: nat) -> Seq<bool> {
    if stream.len() == 0 {
        Seq::empty()
    } else {
        unpack_bits(stream).take(8 * stream.len() - padding)
    }
}

/// What the head of a container holds: the frequency table, the padding
/// count and the place where the bit stream begins.
pub open spec fn header_of(container: Seq<u8>) -> Result<(Seq<(u8, u32)>, u8, nat), HuffError> {
    if container.len() < 5 || container[0] > 7 {
        Err(HuffError::CorruptHeader)
    } else {
        let header_len = spec_u32_from_le_bytes(container.subrange(1, 5)) as int;
        if 5 + header_len > container.len() {
            Err(HuffError::CorruptHeader)
        } else {
            match parse_entries(container.subrange(5, 5 + header_len)) {
                None => Err(HuffError::DeserializationError),
                Some(entries) => Ok((entries, container[0], (5 + header_len) as nat)),
            }
        }
    }
}

/// What decompressing `container` gives: the buffer that its bit stream
/// stands for under the Huffman tree of its frequency table, or the reason
/// why there is none.
pub open spec fn decompressed(container: Seq<u8>) -> Result<Seq<u8>, HuffError> {
    match header_of(container) {
        Err(e) => Err(e),
        Ok((entries, padding, start)) => {
            if entries.len() == 0 {
                Err(HuffError::EmptyInput)
            } else {
                match decode_bits(
                    payload_bits(container.skip(start as int), padding as nat),
                    inverse_table(huffman_tree(entries)),
                ) {
                    Some(data) => Ok(data),
                    None => Err(HuffError::TruncatedStream),
                }
            }
        },
    }
}

/// The result `content` is what decompressing `container` gives.
pub open spec fn decompresses_to(container: Seq<u8>, content: Result<Vec<u8>, HuffError>) -> bool {
    match decompressed(container) {
        Ok(data) => content is Ok && content->Ok_0@ == data,
        Err(e) => content is Err && content->Err_0 == e,
    }
}

/// Decoding two bit strings one behind the other is decoding the second from
/// the state that the first leaves.
pub proof fn lemma_decode_concat(
    state: DecodeState,
    first: Seq<bool>,
    second: Seq<bool>,
    inverse: Map<Seq<bool>, u8>,
)
    ensures
        decode_from(state, first + second, inverse) == decode_from(
            decode_from(state, first, inverse),
            second,
            inverse,
        ),
    decreases second.len(),
{
    if second.len() == 0 {
        assert(first + second == first);
    } else {
        assert((first + second).drop_last() == first + second.drop_last());
        lemma_decode_concat(state, first, second.drop_last(), inverse);
    }
}

/// Once more bits are pending than the longest code has, no symbol is read
/// any more.
pub proof fn lemma_decode_stuck(
    state: DecodeState,
    bits: Seq<bool>,
    inverse: Map<Seq<bool>, u8>,
    longest: nat,
)
    requires
        forall|code: Seq<bool>| inverse.contains_key(code) ==> code.len() <= longest,
        state.1.len() >= longest,
    ensures
        decode_from(state, bits, inverse).0 == state.0,
        decode_from(state, bits, inverse).1.len() == state.1.len() + bits.len(),
    decreases bits.len(),
{
    if bits.len() > 0 {
        lemma_decode_stuck(state, bits.drop_last(), inverse, longest);
    }
}

/// While the bits of a code come in, nothing is read before its last bit,
/// and with its last bit its symbol is read.
pub proof fn lemma_decode_code(
    out: Seq<u8>,
    code: Seq<bool>,
    inverse: Map<Seq<bool>, u8>,
    upto: int,
)
    requires
        0 <= upto <= code.len(),
        inverse.contains_key(code),
        forall|k: int| 0 < k < code.len() ==> !inverse.contains_key(#[trigger] code.take(k)),
    ensures
        upto < code.len() ==> decode_from((out, Seq::empty()), code.take(upto), inverse) == (
            out,
            code.take(upto),
        ),
        0 < upto == code.len() ==> decode_from((out, Seq::empty()), code, inverse) == (
            out.push(inverse[code]),
            Seq::<bool>::empty(),
        ),
    decreases upto,
{
    if upto > 0 {
        lemma_decode_code(out, code, inverse, upto - 1);
        let now = code.take(upto);
        assert(now.drop_last() == code.take(upto - 1));
        assert(code.take(upto - 1).push(now.last()) == now);
        if upto == code.len() {
            assert(now == code);
        }
    } else {
        assert(code.take(0) == Seq::<bool>::empty());
    }
}

/// Decoding the codes of a buffer gives the buffer back, with no bit left
/// over.
pub proof fn lemma_decode_encode(
    data: Seq<u8>,
    table: Map<u8, Seq<bool>>,
    inverse: Map<Seq<bool>, u8>,
)
    requires
        decodable(table, inverse),
        covers(table, data),
    ensures
        decode_from((Seq::empty(), Seq::empty()), encode_bits(data, table), inverse) == (
            data,
            Seq::<bool>::empty(),
        ),
        decode_bits(encode_bits(data, table), inverse) == Some(data),
    decreases data.len(),
{
    if data.len() > 0 {
        let front = data.drop_last();
        let code = table[data.last()];
        assert forall|i: int| 0 <= i < front.len() implies table.contains_key(
            #[trigger] front[i],
        ) by {
            assert(front[i] == data[i]);
        }
        lemma_decode_encode(front, table, inverse);
        assert(table.contains_key(data[data.len() - 1]));
        lemma_decode_concat(
            (Seq::empty(), Seq::empty()),
            encode_bits(front, table),
            code,
            inverse,
        );
        lemma_decode_code(front, code, inverse, code.len() as int);
        assert(front.push(data.last()) == data);
    }
}

/// Bit `bit_index` of `byte`, counted from the most significant bit.
pub fn extract_bit(byte: u8, bit_index: usize) -> (bit: bool)
    requires
        bit_index < 8,
    ensures
        bit == bit_at(byte, bit_index as int),
{
    (byte >> (7 - bit_index)) & 1 == 1
}

/// The padding count: the first byte of the container.
pub fn read_padding_size(container: &Vec<u8>) -> (padding: Result<u8, HuffError>)
    ensures
        container@.len() >= 1 ==> padding == Ok::<u8, HuffError>(container@[0]),
        container@.len() < 1 ==> padding == Err::<u8, HuffError>(HuffError::CorruptHeader),
{
    if container.len() < 1 {
        return Err(HuffError::CorruptHeader);
    }
    Ok(container[0])
}

/// The length of the serialized frequency table: the four bytes behind the
/// padding count, in little-endian order.
pub fn read_header_size(container: &Vec<u8>) -> (size: Result<u32, HuffError>)
    ensures
        container@.len() >= 5 ==> size == Ok::<u32, HuffError>(
            spec_u32_from_le_bytes(container@.subrange(1, 5)),
        ),
        container@.len() < 5 ==> size == Err::<u32, HuffError>(HuffError::CorruptHeader),
{
    if container.len() < 5 {
        return Err(HuffError::CorruptHeader);
    }
    Ok(u32_from_le_bytes(slice_subrange(container.as_slice(), 1, 5)))
}

/// Reads the head of a container: the frequency table, the padding count,
/// and the place where the bit stream begins.  Fails with `CorruptHeader`
/// when the container ends before its head does or the padding count is
/// above 7, and with `DeserializationError` when the table's bytes are not a
/// canonical frequency table.
pub fn read_header(container: &Vec<u8>) -> (header: Result<(FrequencyList, u8, usize), HuffError>)
    ensures
        (match header_of(container@) {
            Ok((entries, padding, start)) => header is Ok && header->Ok_0.0@ == entries
                && header->Ok_0.1 == padding && header->Ok_0.2 == start,
            Err(e) => header is Err && header->Err_0 == e,
        }),
{
    let padding_size = match read_padding_size(container) {
        Ok(padding_size) => padding_size,
        Err(e) => {
            return Err(e);
        },
    };
    let header_size = match read_header_size(container) {
        Ok(header_size) => header_size,
        Err(e) => {
            return Err(e);
        },
    };
    if padding_size > 7 {
        return Err(HuffError::CorruptHeader);
    }
    let header_size = header_size as usize;
    if header_size > container.len() - 5 {
        return Err(HuffError::CorruptHeader);
    }
    let buffer = slice_subrange(container.as_slice(), 5, 5 + header_size);
    match FrequencyList::from_bytes(buffer) {
        Ok(header) => Ok((header, padding_size, 5 + header_size)),
        Err(e) => Err(e),
    }
}

/// The inverse code table of the Huffman tree of a frequency table.
pub fn build_inverse_compression_table(
    freq_list: &FrequencyList,
) -> (table: Result<InverseHuffTable, HuffError>)
    ensures
        freq_list@.len() == 0 ==> table is Err && table->Err_0 == HuffError::EmptyInput,
        freq_list@.len() > 0 ==> table is Ok && table->Ok_0@ == inverse_table(
            huffman_tree(freq_list@),
        ),
{
    let tree = match build_tree(freq_list) {
        Ok(tree) => tree,
        Err(e) => {
            return Err(e);
        },
    };
    proof {
        use_type_invariant(freq_list);
        lemma_canonical_len(freq_list@);
        lemma_huffman_tree(freq_list@);
    }
    Ok(build_inverse_table(&tree))
}

/// Reads the symbols of a bit stream.  Every bit of `stream` but the last
/// `padding_size` bits of its last byte is fed, most significant bit first,
/// to an accumulator; whenever the accumulator holds a code of `huff_table`
/// its symbol is written and the accumulator emptied.  Fails with
/// `TruncatedStream` when bits are left in the accumulator at the end; the
/// decoder gives up as soon as the accumulator is as long as the longest code
/// and holds none, since no code can end from there on.
pub fn decode_stream(
    padding_size: u8,
    huff_table: &InverseHuffTable,
    stream: &[u8],
) -> (decoded: Result<Vec<u8>, HuffError>)
    requires
        padding_size <= 7,
    ensures
        (match decode_bits(payload_bits(stream@, padding_size as nat), huff_table@) {
            Some(data) => decoded is Ok && decoded->Ok_0@ == data,
            None => decoded is Err && decoded->Err_0 == HuffError::TruncatedStream,
        }),
{
    let mut acc: BitBuf = bits_new();
    let mut writer: Vec<u8> = Vec::new();
    let longest = huff_table.length_bound();
    let ghost bits = payload_bits(stream@, padding_size as nat);
    let ghost start: DecodeState = (Seq::empty(), Seq::empty());
    let count = stream.len();
    let mut current: usize = 0;
    assert(bits.take(0) == Seq::<bool>::empty());
    while current < count
        invariant
            current <= count == stream@.len(),
            padding_size <= 7,
            bits == payload_bits(stream@, padding_size as nat),
            start == (Seq::<u8>::empty(), Seq::<bool>::empty()),
            current < count ==> 8 * current <= bits.len(),
            current == count ==> (writer@, acc@) == decode_from(start, bits, huff_table@),
            current < count ==> (writer@, acc@) == decode_from(
                start,
                bits.take(8 * current as int),
                huff_table@,
            ),
            acc@.len() == 0 || acc@.len() < longest,
            longest <= max_bits(),
            forall|code: Seq<bool>| huff_table@.contains_key(code) ==> code.len() <= longest,
        decreases count - current,
    {
        let current_byte = stream[current];
        let has_next = current + 1 < count;
        let mut bits_to_read: usize = 8;
        if !has_next {
            bits_to_read = 8 - padding_size as usize;
        }
        let ghost base = 8 * current as int;
        assert(bits.len() == 8 * count - padding_size);
        let mut bit_index: usize = 0;
        while bit_index < bits_to_read
            invariant
                bit_index <= bits_to_read <= 8,
                current < count == stream@.len(),
                base == 8 * current,
                base + bits_to_read <= bits.len() == 8 * count - padding_size,
                current_byte == stream@[current as int],
                bits == payload_bits(stream@, padding_size as nat),
                start == (Seq::<u8>::empty(), Seq::<bool>::empty()),
                (writer@, acc@) == decode_from(start, bits.take(base + bit_index), huff_table@),
                acc@.len() == 0 || acc@.len() < longest,
                longest <= max_bits(),
                forall|code: Seq<bool>| huff_table@.contains_key(code) ==> code.len() <= longest,
            decreases bits_to_read - bit_index,
        {
            let bit = extract_bit(current_byte, bit_index);
            let ghost before: DecodeState = (writer@, acc@);
            let ghost seen = bits.take(base + bit_index + 1);
            proof {
                assert(seen.drop_last() == bits.take(base + bit_index));
                assert(seen.last() == bits[base + bit_index]);
                assert((base + bit_index) / 8 == current && (base + bit_index) % 8 == bit_index);
                assert(bits[base + bit_index] == unpack_bits(stream@)[base + bit_index]);
                assert(unpack_bits(stream@)[base + bit_index] == bit_at(
                    stream@[(base + bit_index) / 8],
                    (base + bit_index) % 8,
                ));
                assert(bits[base + bit_index] == bit);
                assert(decode_from(start, seen, huff_table@) == decode_step(
                    before,
                    bit,
                    huff_table@,
                ));
            }
            bits_push(&mut acc, bit);
            match huff_table.get(&acc) {
                Some(byte) => {
                    writer.push(byte);
                    bits_clear(&mut acc);
                },
                None => {
                    if bits_len(&acc) >= longest {
                        proof {
                            let rest = bits.skip(base + bit_index + 1);
                            assert(seen + rest == bits);
                            lemma_decode_concat(start, seen, rest, huff_table@);
                            lemma_decode_stuck((writer@, acc@), rest, huff_table@, longest as nat);
                        }
                        return Err(HuffError::TruncatedStream);
                    }
                },
            }
            bit_index += 1;
        }
        proof {
            if !has_next {
                assert(bits.take(base + bits_to_read) == bits);
            }
        }
        current += 1;
    }
    proof {
        if count == 0 {
            assert(bits == Seq::<bool>::empty());
        }
    }
    if bits_len(&acc) != 0 {
        return Err(HuffError::TruncatedStream);
    }
    Ok(writer)
}

/// Decompresses a container into the buffer it was made from.
pub fn huff_decompress(container: &Vec<u8>) -> (content: Result<Vec<u8>, HuffError>)
    ensures
        decompresses_to(container@, content),
{
    let (freq_list, padding_size, start) = match read_header(container) {
        Ok(header) => header,
        Err(e) => {
            return Err(e);
        },
    };
    let inverse_table = match build_inverse_compression_table(&freq_list) {
        Ok(table) => table,
        Err(e) => {
            return Err(e);
        },
    };
    let stream = slice_subrange(container.as_slice(), start, container.len());
    assert(stream@ == container@.skip(start as int));
    decode_stream(padding_size, &inverse_table, stream)
}

} // verus!
