use rebhu::bits::{drain_byte, BitBuf};
use rebhu::compressor::{
    build_compression_table, count_byte_frequency, counts_fit, write_complete_bytes, write_encoded_content,
    write_header, write_last_byte, write_padding_bits_into_header,
};
use rebhu::decompressor::{
    build_inverse_compression_table, decode_stream, extract_bit, read_header, read_header_size,
    read_padding_size,
};
use rebhu::error::HuffError;
use rebhu::huff::{build_inverse_table, build_table, build_tree, FrequencyList};
use rebhu::min_heap::MinHeap;
use rebhu::table::{HuffTable, InverseHuffTable};
use rebhu::tree::HuffTree;
use std::collections::HashMap;

fn frequency_list(data: &[u8]) -> FrequencyList {
    let mut map = HashMap::new();
    count_byte_frequency(&data.to_vec(), &mut map);
    FrequencyList::from_hashmap(&map)
}

fn code(table: &HuffTable, byte: u8) -> Vec<bool> {
    table.get(byte).unwrap().to_bits()
}

fn leaf_symbol(tree: &HuffTree) -> u8 {
    match tree {
        HuffTree::Leaf { byte, .. } => *byte,
        HuffTree::Node { .. } => panic!("a leaf was expected"),
    }
}

#[test]
fn bit_buffer_keeps_its_bits() {
    let bits = vec![true, false, false, true, true];
    let buffer = BitBuf::from_bits(&bits);
    assert_eq!(buffer.len(), 5);
    assert_eq!(buffer.to_bits(), bits);
    assert_eq!(BitBuf::new().len(), 0);
    assert_eq!(BitBuf::new().to_bits(), Vec::<bool>::new());
}

#[test]
fn drain_byte_takes_eight_bits_in_reverse() {
    let bits = vec![true, true, false, false, false, false, false, true, false, true];
    let mut buffer = BitBuf::from_bits(&bits);
    let byte = drain_byte(&mut buffer);
    assert_eq!(byte.to_bits(), vec![true, false, false, false, false, false, true, true]);
    assert_eq!(buffer.to_bits(), vec![false, true]);
}

#[test]
fn counting_adds_to_what_the_map_holds() {
    let mut map = HashMap::new();
    map.insert(7u8, 10u32);
    map.insert(9u8, 1u32);
    count_byte_frequency(&vec![7, 8, 7, 7], &mut map);
    assert_eq!(map.len(), 3);
    assert_eq!(map[&7], 13);
    assert_eq!(map[&8], 1);
    assert_eq!(map[&9], 1);
    let mut empty = HashMap::new();
    count_byte_frequency(&Vec::new(), &mut empty);
    assert!(empty.is_empty());
}

#[test]
fn from_hashmap_sorts_by_symbol() {
    let list = frequency_list(&[0x43, 0x41, 0x42, 0x41, 0x42, 0x41]);
    assert_eq!(list.pairs(), vec![(0x41, 3), (0x42, 2), (0x43, 1)]);
}

#[test]
fn from_hashmap_leaves_out_symbols_counted_zero_times() {
    let mut map = HashMap::new();
    map.insert(200u8, 4u32);
    map.insert(3u8, 0u32);
    map.insert(0u8, 1u32);
    map.insert(255u8, u32::MAX);
    let list = FrequencyList::from_hashmap(&map);
    assert_eq!(list.pairs(), vec![(0, 1), (200, 4), (255, u32::MAX)]);
    assert_eq!(FrequencyList::from_hashmap(&HashMap::new()).pairs(), Vec::new());
}

#[test]
fn frequency_table_bytes_are_symbol_and_count() {
    let mut map = HashMap::new();
    map.insert(0x61u8, 0x01020304u32);
    map.insert(0x10u8, 2u32);
    let list = FrequencyList::from_hashmap(&map);
    let bytes = list.to_bytes();
    assert_eq!(bytes, vec![0x10, 0x02, 0x00, 0x00, 0x00, 0x61, 0x04, 0x03, 0x02, 0x01]);
    let back = FrequencyList::from_bytes(&bytes).unwrap();
    assert_eq!(back.pairs(), vec![(0x10, 2), (0x61, 0x01020304)]);
}

#[test]
fn frequency_table_bytes_must_be_canonical() {
    assert!(FrequencyList::from_bytes(&[]).unwrap().pairs().is_empty());
    assert_eq!(FrequencyList::from_bytes(&[1, 2, 3]).unwrap_err(), HuffError::DeserializationError);
    assert_eq!(
        FrequencyList::from_bytes(&[5, 1, 0, 0, 0, 5, 1, 0, 0, 0]).unwrap_err(),
        HuffError::DeserializationError
    );
    assert_eq!(
        FrequencyList::from_bytes(&[5, 1, 0, 0, 0, 4, 1, 0, 0, 0]).unwrap_err(),
        HuffError::DeserializationError
    );
    assert_eq!(
        FrequencyList::from_bytes(&[5, 0, 0, 0, 0]).unwrap_err(),
        HuffError::DeserializationError
    );
}

#[test]
fn min_heap_gives_the_lightest_first() {
    let mut heap: MinHeap<HuffTree> = MinHeap::new();
    assert!(heap.is_empty());
    assert_eq!(heap.len(), 0);
    assert!(heap.peek().is_none());
    assert!(heap.pop().is_none());
    heap.push(HuffTree::leaf(1, 30));
    heap.push(HuffTree::leaf(2, 10));
    heap.push(HuffTree::leaf(3, 20));
    assert!(!heap.is_empty());
    assert_eq!(heap.len(), 3);
    assert_eq!(leaf_symbol(heap.peek().unwrap()), 2);
    assert_eq!(heap.len(), 3);
    assert_eq!(leaf_symbol(&heap.pop().unwrap()), 2);
    assert_eq!(leaf_symbol(&heap.pop().unwrap()), 3);
    assert_eq!(heap.len(), 1);
    assert_eq!(leaf_symbol(&heap.pop().unwrap()), 1);
    assert!(heap.pop().is_none());
}

#[test]
fn min_heap_keeps_the_order_of_entry_among_equal_weights() {
    let mut heap: MinHeap<HuffTree> = MinHeap::new();
    for symbol in [5u8, 6, 7] {
        heap.push(HuffTree::leaf(symbol, 4));
    }
    heap.push(HuffTree::leaf(8, 1));
    heap.push(HuffTree::leaf(9, 4));
    let order: Vec<u8> = (0..5).map(|_| leaf_symbol(&heap.pop().unwrap())).collect();
    assert_eq!(order, vec![8, 5, 6, 7, 9]);
}

#[test]
fn min_heap_from_a_vector_enters_its_items_in_order() {
    let items = vec![HuffTree::leaf(1, 2), HuffTree::leaf(2, 1), HuffTree::leaf(3, 2)];
    let mut heap = MinHeap::from_vec(items);
    assert_eq!(heap.len(), 3);
    let order: Vec<u8> = (0..3).map(|_| leaf_symbol(&heap.pop().unwrap())).collect();
    assert_eq!(order, vec![2, 1, 3]);
}

#[test]
fn combine_adds_the_weights() {
    let tree = HuffTree::combine(HuffTree::leaf(1, u32::MAX), HuffTree::leaf(2, u32::MAX));
    assert_eq!(tree.freq(), 2 * (u32::MAX as u64));
    match tree {
        HuffTree::Node { freq, left, right } => {
            assert_eq!(freq, 8589934590);
            assert_eq!(leaf_symbol(&left), 1);
            assert_eq!(leaf_symbol(&right), 2);
        }
        HuffTree::Leaf { .. } => panic!("a node was expected"),
    }
    assert_eq!(HuffTree::leaf(9, 12).freq(), 12);
}

#[test]
fn build_tree_joins_the_two_lightest_first() {
    let tree = build_tree(&frequency_list(&[0x41, 0x41, 0x41, 0x42, 0x42, 0x43])).unwrap();
    match tree {
        HuffTree::Node { freq, left, right } => {
            assert_eq!(freq, 6);
            assert_eq!(leaf_symbol(&left), 0x41);
            match *right {
                HuffTree::Node { freq, left, right } => {
                    assert_eq!(freq, 3);
                    assert_eq!(leaf_symbol(&left), 0x43);
                    assert_eq!(leaf_symbol(&right), 0x42);
                }
                HuffTree::Leaf { .. } => panic!("a node was expected"),
            }
        }
        HuffTree::Leaf { .. } => panic!("a node was expected"),
    }
}

#[test]
fn build_tree_refuses_an_empty_table() {
    assert!(matches!(build_tree(&frequency_list(&[])), Err(HuffError::EmptyInput)));
    assert!(matches!(build_compression_table(&frequency_list(&[])), Err(HuffError::EmptyInput)));
    assert!(matches!(
        build_inverse_compression_table(&frequency_list(&[])),
        Err(HuffError::EmptyInput)
    ));
}

#[test]
fn codes_follow_the_edges() {
    let table = build_compression_table(&frequency_list(&[0x41, 0x41, 0x41, 0x42, 0x42, 0x43])).unwrap();
    assert_eq!(code(&table, 0x41), vec![false]);
    assert_eq!(code(&table, 0x43), vec![true, false]);
    assert_eq!(code(&table, 0x42), vec![true, true]);
    assert!(table.get(0x44).is_none());
    assert!(code(&table, 0x41).len() <= code(&table, 0x42).len());
    assert!(code(&table, 0x42).len() <= code(&table, 0x43).len());
}

#[test]
fn inverse_table_leads_back_to_the_symbols() {
    let list = frequency_list(&[0x41, 0x41, 0x41, 0x42, 0x42, 0x43]);
    let inverse = build_inverse_compression_table(&list).unwrap();
    assert_eq!(inverse.get(&BitBuf::from_bits(&[false])), Some(0x41));
    assert_eq!(inverse.get(&BitBuf::from_bits(&[true, false])), Some(0x43));
    assert_eq!(inverse.get(&BitBuf::from_bits(&[true, true])), Some(0x42));
    assert_eq!(inverse.get(&BitBuf::from_bits(&[true])), None);
    assert_eq!(inverse.get(&BitBuf::new()), None);
    assert_eq!(inverse.get(&BitBuf::from_bits(&[false, false])), None);
}

#[test]
fn a_single_leaf_gets_a_one_bit_code() {
    let tree = HuffTree::leaf(0x5a, 1000);
    let table = build_table(&tree);
    assert_eq!(code(&table, 0x5a), vec![false]);
    let inverse = build_inverse_table(&tree);
    assert_eq!(inverse.get(&BitBuf::from_bits(&[false])), Some(0x5a));
    assert_eq!(inverse.get(&BitBuf::new()), None);
    assert_eq!(inverse.get(&BitBuf::from_bits(&[true])), None);
}

#[test]
fn pre_order_walks_start_at_the_given_prefix() {
    let tree = HuffTree::combine(
        HuffTree::leaf(1, 1),
        HuffTree::combine(HuffTree::leaf(2, 1), HuffTree::leaf(3, 1)),
    );
    let table = tree.pre_order_code(BitBuf::from_bits(&[true, true, false]));
    assert_eq!(code(&table, 1), vec![true, true, false, false]);
    assert_eq!(code(&table, 2), vec![true, true, false, true, false]);
    assert_eq!(code(&table, 3), vec![true, true, false, true, true]);
    let inverse = tree.pre_order_byte(BitBuf::from_bits(&[false]));
    assert_eq!(inverse.get(&BitBuf::from_bits(&[false, false])), Some(1));
    assert_eq!(inverse.get(&BitBuf::from_bits(&[false, true, false])), Some(2));
    assert_eq!(inverse.get(&BitBuf::from_bits(&[false, true, true])), Some(3));
    assert_eq!(inverse.get(&BitBuf::from_bits(&[false, true])), None);
    let leaf = HuffTree::leaf(9, 1);
    assert_eq!(code(&leaf.pre_order_code(BitBuf::new()), 9), Vec::<bool>::new());
}

#[test]
fn a_symbol_at_two_leaves_takes_the_code_of_the_right_one() {
    let tree = HuffTree::combine(HuffTree::leaf(1, 1), HuffTree::leaf(1, 1));
    let table = tree.pre_order_code(BitBuf::new());
    assert_eq!(code(&table, 1), vec![true]);
    let inverse = tree.pre_order_byte(BitBuf::new());
    assert_eq!(inverse.get(&BitBuf::from_bits(&[false])), Some(1));
    assert_eq!(inverse.get(&BitBuf::from_bits(&[true])), Some(1));
}

#[test]
fn no_code_begins_another() {
    let data: Vec<u8> = (0..2000u32).map(|i| ((i * i) % 37) as u8).collect();
    let list = frequency_list(&data);
    let table = build_compression_table(&list).unwrap();
    let symbols: Vec<u8> = list.pairs().iter().map(|p| p.0).collect();
    assert_eq!(symbols.len(), 19);
    for a in &symbols {
        for b in &symbols {
            if a != b {
                let first = code(&table, *a);
                let second = code(&table, *b);
                assert!(!first.is_empty());
                assert!(!second.starts_with(&first));
            }
        }
    }
}

#[test]
fn tables_can_be_filled_by_hand() {
    let mut table = HuffTable::new();
    assert!(table.get(1).is_none());
    table.insert(1, BitBuf::from_bits(&[true]));
    table.insert(1, BitBuf::from_bits(&[false, true]));
    assert_eq!(code(&table, 1), vec![false, true]);
    let mut inverse = InverseHuffTable::new();
    inverse.insert(BitBuf::from_bits(&[true]), 4);
    inverse.insert(BitBuf::from_bits(&[false, false, true]), 5);
    inverse.insert(BitBuf::from_bits(&[true]), 6);
    assert_eq!(inverse.get(&BitBuf::from_bits(&[true])), Some(6));
    assert_eq!(inverse.get(&BitBuf::from_bits(&[false, false, true])), Some(5));
    assert_eq!(inverse.get(&BitBuf::from_bits(&[false, false])), None);
    assert_eq!(inverse.get(&BitBuf::from_bits(&[false, true])), None);
}

#[test]
fn complete_bytes_are_written_and_the_rest_stays() {
    let table = build_compression_table(&frequency_list(&[0x41, 0x41, 0x41, 0x42, 0x42, 0x43])).unwrap();
    let mut buffer = BitBuf::from_bits(&[true, false, true]);
    let mut out = vec![0xaa];
    // 101 + 0 0 11 11 10 11 = 1010 0111 | 1101 1
    let done = write_complete_bytes(
        &mut buffer,
        &table,
        &vec![0x41, 0x41, 0x42, 0x42, 0x43, 0x42],
        &mut out,
    );
    assert_eq!(done, Ok(()));
    assert_eq!(out, vec![0xaa, 0xa7]);
    assert_eq!(buffer.to_bits(), vec![true, true, false, true, true]);
    let padding = write_last_byte(&mut buffer, &mut out);
    assert_eq!(padding, 3);
    assert_eq!(out, vec![0xaa, 0xa7, 0xd8]);
    assert_eq!(buffer.len(), 0);
}

#[test]
fn the_last_byte_is_not_written_for_an_empty_buffer() {
    let mut buffer = BitBuf::new();
    let mut out = Vec::new();
    assert_eq!(write_last_byte(&mut buffer, &mut out), 0);
    assert!(out.is_empty());
    let mut full = BitBuf::from_bits(&[false, true, false, false, false, false, true, true]);
    assert_eq!(write_last_byte(&mut full, &mut out), 0);
    assert_eq!(out, vec![0x43]);
    let mut one = BitBuf::from_bits(&[true]);
    assert_eq!(write_last_byte(&mut one, &mut out), 7);
    assert_eq!(out, vec![0x43, 0x80]);
}

#[test]
fn a_byte_without_code_is_a_missing_code() {
    let table = build_compression_table(&frequency_list(&[0x41, 0x42])).unwrap();
    let mut out = Vec::new();
    assert_eq!(
        write_encoded_content(&table, &vec![0x41, 0x43], &mut out),
        Err(HuffError::MissingCode)
    );
    let mut buffer = BitBuf::new();
    assert_eq!(
        write_complete_bytes(&mut buffer, &table, &vec![0x00], &mut out),
        Err(HuffError::MissingCode)
    );
    assert_eq!(write_encoded_content(&HuffTable::new(), &Vec::new(), &mut out), Ok(0));
}

#[test]
fn encoded_content_reports_its_padding() {
    let table = build_compression_table(&frequency_list(&[0x41, 0x41, 0x41, 0x42, 0x42, 0x43])).unwrap();
    let mut out = Vec::new();
    let padding = write_encoded_content(&table, &vec![0x41, 0x41, 0x41, 0x42, 0x42, 0x43], &mut out);
    assert_eq!(padding, Ok(7));
    assert_eq!(out, vec![0x1f, 0x00]);
    let mut aligned = Vec::new();
    let padding = write_encoded_content(&table, &vec![0x42, 0x43, 0x42, 0x43], &mut aligned);
    assert_eq!(padding, Ok(0));
    assert_eq!(aligned, vec![0xee]);
}

#[test]
fn the_header_comes_behind_a_placeholder_and_its_length() {
    let mut out = vec![0x99];
    write_header(&frequency_list(&[0x62, 0x61, 0x62]), &mut out);
    assert_eq!(
        out,
        vec![0x99, 0x00, 0x0a, 0x00, 0x00, 0x00, 0x61, 0x01, 0x00, 0x00, 0x00, 0x62, 0x02, 0x00, 0x00, 0x00]
    );
    let mut container = vec![0x00, 0x01, 0x02];
    write_padding_bits_into_header(5, &mut container);
    assert_eq!(container, vec![0x05, 0x01, 0x02]);
}

#[test]
fn extract_bit_counts_from_the_most_significant_bit() {
    let bits: Vec<bool> = (0..8).map(|i| extract_bit(0b1010_0001, i)).collect();
    assert_eq!(bits, vec![true, false, true, false, false, false, false, true]);
    assert!(extract_bit(0x80, 0));
    assert!(!extract_bit(0x80, 7));
    assert!(extract_bit(0x01, 7));
}

#[test]
fn the_header_is_read_with_the_place_of_the_stream() {
    let container = vec![
        0x03, 0x0a, 0x00, 0x00, 0x00, 0x61, 0x01, 0x00, 0x00, 0x00, 0x62, 0x02, 0x00, 0x00, 0x00,
        0xff,
    ];
    assert_eq!(read_padding_size(&container), Ok(3));
    assert_eq!(read_header_size(&container), Ok(10));
    let (list, padding, start) = read_header(&container).unwrap();
    assert_eq!(list.pairs(), vec![(0x61, 1), (0x62, 2)]);
    assert_eq!(padding, 3);
    assert_eq!(start, 15);
    assert_eq!(read_padding_size(&Vec::new()), Err(HuffError::CorruptHeader));
    assert_eq!(read_header_size(&vec![0, 1, 0, 0]), Err(HuffError::CorruptHeader));
    assert_eq!(read_header_size(&vec![9, 0x78, 0x56, 0x34, 0x12]), Ok(0x12345678));
    assert_eq!(read_header(&vec![8, 0, 0, 0, 0]).unwrap_err(), HuffError::CorruptHeader);
    assert_eq!(read_header(&vec![0, 1, 0, 0, 0]).unwrap_err(), HuffError::CorruptHeader);
    assert_eq!(read_header(&vec![0, 1, 0, 0, 0, 7]).unwrap_err(), HuffError::DeserializationError);
}

#[test]
fn a_stream_is_decoded_bit_by_bit() {
    let list = frequency_list(&[0x41, 0x41, 0x41, 0x42, 0x42, 0x43]);
    let inverse = build_inverse_compression_table(&list).unwrap();
    assert_eq!(
        decode_stream(7, &inverse, &[0x1f, 0x00]),
        Ok(vec![0x41, 0x41, 0x41, 0x42, 0x42, 0x43])
    );
    assert_eq!(decode_stream(0, &inverse, &[0xee]), Ok(vec![0x42, 0x43, 0x42, 0x43]));
    assert_eq!(decode_stream(0, &inverse, &[]), Ok(Vec::new()));
    assert_eq!(decode_stream(4, &inverse, &[]), Ok(Vec::new()));
    assert_eq!(decode_stream(0, &inverse, &[0x01]), Err(HuffError::TruncatedStream));
    assert_eq!(decode_stream(0, &InverseHuffTable::new(), &[0x00]), Err(HuffError::TruncatedStream));
    assert_eq!(decode_stream(0, &InverseHuffTable::new(), &[]), Ok(Vec::new()));
}

#[test]
fn short_buffers_can_be_counted() {
    assert!(counts_fit(&Vec::new()));
    assert!(counts_fit(&vec![7u8; 100000]));
}

#[test]
fn codes_with_leading_zeros_are_told_apart() {
    let mut inverse = InverseHuffTable::new();
    inverse.insert(BitBuf::from_bits(&[false]), 1);
    inverse.insert(BitBuf::from_bits(&[false, false]), 2);
    inverse.insert(BitBuf::from_bits(&[false, false, false]), 3);
    inverse.insert(BitBuf::from_bits(&[true, false]), 4);
    inverse.insert(BitBuf::from_bits(&[false, true, false]), 5);
    assert_eq!(inverse.get(&BitBuf::new()), None);
    assert_eq!(inverse.get(&BitBuf::from_bits(&[false])), Some(1));
    assert_eq!(inverse.get(&BitBuf::from_bits(&[false, false])), Some(2));
    assert_eq!(inverse.get(&BitBuf::from_bits(&[false, false, false])), Some(3));
    assert_eq!(inverse.get(&BitBuf::from_bits(&[true, false])), Some(4));
    assert_eq!(inverse.get(&BitBuf::from_bits(&[false, true, false])), Some(5));
    assert_eq!(inverse.get(&BitBuf::from_bits(&[true])), None);
    assert_eq!(inverse.get(&BitBuf::from_bits(&[false, true])), None);
    let mut empty_code = InverseHuffTable::new();
    empty_code.insert(BitBuf::new(), 9);
    assert_eq!(empty_code.get(&BitBuf::new()), Some(9));
    assert_eq!(empty_code.get(&BitBuf::from_bits(&[false])), None);
}

#[test]
fn codes_beyond_sixty_three_bits_are_kept() {
    let sixty_three = vec![true; 63];
    let sixty_four = vec![true; 64];
    let mut other = vec![true; 64];
    other[10] = false;
    let mut inverse = InverseHuffTable::new();
    inverse.insert(BitBuf::from_bits(&sixty_three), 1);
    inverse.insert(BitBuf::from_bits(&sixty_four), 2);
    inverse.insert(BitBuf::from_bits(&other), 3);
    inverse.insert(BitBuf::from_bits(&sixty_four), 4);
    assert_eq!(inverse.get(&BitBuf::from_bits(&sixty_three)), Some(1));
    assert_eq!(inverse.get(&BitBuf::from_bits(&sixty_four)), Some(4));
    assert_eq!(inverse.get(&BitBuf::from_bits(&other)), Some(3));
    assert_eq!(inverse.get(&BitBuf::from_bits(&vec![true; 65])), None);
    assert_eq!(inverse.get(&BitBuf::from_bits(&vec![false; 64])), None);
}

#[test]
fn a_lopsided_tree_round_trips_through_long_codes() {
    // Symbol 0 hangs 70 edges deep; symbol n hangs 71 - n edges deep.
    let mut tree = HuffTree::leaf(0, 1);
    for symbol in 1..=70u8 {
        tree = HuffTree::combine(tree, HuffTree::leaf(symbol, 1));
    }
    let table = build_table(&tree);
    let inverse = build_inverse_table(&tree);
    assert_eq!(code(&table, 70), vec![true]);
    assert_eq!(code(&table, 0), vec![false; 70]);
    let mut deep = vec![false; 69];
    deep.push(true);
    assert_eq!(code(&table, 1), deep);
    assert_eq!(inverse.get(&BitBuf::from_bits(&deep)), Some(1));
    assert_eq!(inverse.get(&BitBuf::from_bits(&vec![false; 70])), Some(0));
    assert_eq!(inverse.get(&BitBuf::from_bits(&vec![false; 69])), None);
    let content = vec![0u8, 70, 1, 0, 35, 2, 69, 0];
    let mut stream = Vec::new();
    let padding = write_encoded_content(&table, &content, &mut stream).unwrap();
    assert_eq!(decode_stream(padding, &inverse, &stream), Ok(content));
    // Behind the 70 zero bits of symbol 0, ten more begin a code and do not end it.
    assert_eq!(decode_stream(0, &inverse, &[0u8; 10]), Err(HuffError::TruncatedStream));
}
