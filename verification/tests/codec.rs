use rebhu::compressor::huff_compress;
use rebhu::decompressor::huff_decompress;
use rebhu::error::HuffError;

fn sample(len: usize, symbols: u32, seed: u32) -> Vec<u8> {
    let mut state = seed;
    let mut data = Vec::with_capacity(len);
    for _ in 0..len {
        state = state.wrapping_mul(1664525).wrapping_add(1013904223);
        let skewed = (state >> 16) % symbols * ((state >> 8) % symbols) / symbols;
        data.push(skewed as u8);
    }
    data
}

#[test]
fn three_symbols_give_the_expected_container() {
    let input = vec![0x41, 0x41, 0x41, 0x42, 0x42, 0x43];
    let container = huff_compress(&input).unwrap();
    let expected: Vec<u8> = vec![
        0x07, 0x0f, 0x00, 0x00, 0x00, 0x41, 0x03, 0x00, 0x00, 0x00, 0x42, 0x02, 0x00, 0x00, 0x00,
        0x43, 0x01, 0x00, 0x00, 0x00, 0x1f, 0x00,
    ];
    assert_eq!(container, expected);
}

#[test]
fn three_symbols_round_trip() {
    let input = vec![0x41, 0x41, 0x41, 0x42, 0x42, 0x43];
    let container = huff_compress(&input).unwrap();
    let output = huff_decompress(&container).unwrap();
    assert_eq!(output.len(), 6);
    assert_eq!(output, input);
}

#[test]
fn one_thousand_equal_bytes_round_trip() {
    let input = vec![0x5au8; 1000];
    let container = huff_compress(&input).unwrap();
    let mut expected: Vec<u8> = vec![0x00, 0x05, 0x00, 0x00, 0x00, 0x5a, 0xe8, 0x03, 0x00, 0x00];
    expected.extend(vec![0u8; 125]);
    assert_eq!(container, expected);
    assert_eq!(huff_decompress(&container).unwrap(), input);
}

#[test]
fn a_single_byte_round_trips() {
    let input = vec![0xffu8];
    let container = huff_compress(&input).unwrap();
    assert_eq!(container, vec![0x07, 0x05, 0x00, 0x00, 0x00, 0xff, 0x01, 0x00, 0x00, 0x00, 0x00]);
    assert_eq!(huff_decompress(&container).unwrap(), input);
}

#[test]
fn empty_input_is_refused() {
    assert_eq!(huff_compress(&Vec::new()), Err(HuffError::EmptyInput));
}

#[test]
fn every_byte_value_round_trips() {
    let input: Vec<u8> = (0..=255u8).collect();
    let container = huff_compress(&input).unwrap();
    assert_eq!(container.len(), 5 + 256 * 5 + 256);
    assert_eq!(container[0], 0);
    assert_eq!(huff_decompress(&container).unwrap(), input);
}

#[test]
fn skewed_buffers_round_trip() {
    for (len, symbols, seed) in [(1usize, 2u32, 1u32), (17, 3, 2), (1000, 7, 3), (4096, 64, 4), (20000, 256, 5)] {
        let input = sample(len, symbols, seed);
        let container = huff_compress(&input).unwrap();
        assert_eq!(huff_decompress(&container).unwrap(), input);
    }
}

#[test]
fn text_round_trips_and_shrinks() {
    let text = "it was the best of times, it was the worst of times, it was the age of wisdom, \
                it was the age of foolishness, it was the epoch of belief, it was the epoch of \
                incredulity, it was the season of light, it was the season of darkness";
    let input = text.as_bytes().to_vec();
    let container = huff_compress(&input).unwrap();
    assert!(container.len() < input.len() + 5 + 5 * 256);
    assert_eq!(huff_decompress(&container).unwrap(), input);
}

#[test]
fn compressing_twice_gives_the_same_bytes() {
    let input = sample(5000, 40, 99);
    let first = huff_compress(&input).unwrap();
    let second = huff_compress(&input).unwrap();
    assert_eq!(first, second);
}

#[test]
fn header_entries_ascend_strictly_by_symbol() {
    let input = sample(3000, 200, 7);
    let container = huff_compress(&input).unwrap();
    let header_len = u32::from_le_bytes([container[1], container[2], container[3], container[4]]) as usize;
    assert_eq!(header_len % 5, 0);
    let header = &container[5..5 + header_len];
    let mut previous: Option<u8> = None;
    for entry in header.chunks(5) {
        if let Some(symbol) = previous {
            assert!(symbol < entry[0]);
        }
        let count = u32::from_le_bytes([entry[1], entry[2], entry[3], entry[4]]);
        assert_eq!(count as usize, input.iter().filter(|b| **b == entry[0]).count());
        assert!(count >= 1);
        previous = Some(entry[0]);
    }
}

#[test]
fn padding_is_below_eight_and_zero_for_whole_bytes() {
    for len in 1..40usize {
        let input = sample(len, 5, len as u32);
        let container = huff_compress(&input).unwrap();
        assert!(container[0] <= 7);
    }
    // Two symbols get one bit each: eight bytes fill one byte of bits exactly.
    let whole = huff_compress(&vec![1, 2, 1, 2, 1, 2, 1, 2]).unwrap();
    assert_eq!(whole[0], 0);
    assert_eq!(whole.len(), 5 + 10 + 1);
    let ragged = huff_compress(&vec![1, 2, 1, 2, 1, 2, 1, 2, 1]).unwrap();
    assert_eq!(ragged[0], 7);
    assert_eq!(ragged.len(), 5 + 10 + 2);
}

#[test]
fn a_container_below_five_bytes_is_corrupt() {
    assert_eq!(huff_decompress(&Vec::new()), Err(HuffError::CorruptHeader));
    assert_eq!(huff_decompress(&vec![0, 5, 0, 0]), Err(HuffError::CorruptHeader));
}

#[test]
fn a_padding_count_above_seven_is_corrupt() {
    let mut container = huff_compress(&vec![0x41, 0x41, 0x41, 0x42, 0x42, 0x43]).unwrap();
    container[0] = 8;
    assert_eq!(huff_decompress(&container), Err(HuffError::CorruptHeader));
}

#[test]
fn a_header_length_past_the_end_is_corrupt() {
    let container = vec![0x00, 0x06, 0x00, 0x00, 0x00, 0x41, 0x01, 0x00, 0x00, 0x00];
    assert_eq!(huff_decompress(&container), Err(HuffError::CorruptHeader));
    let huge = vec![0x00, 0xff, 0xff, 0xff, 0xff, 0x41, 0x01, 0x00, 0x00, 0x00];
    assert_eq!(huff_decompress(&huge), Err(HuffError::CorruptHeader));
}

#[test]
fn a_header_that_is_no_table_is_refused() {
    // four bytes are no whole entry
    let short = vec![0x00, 0x04, 0x00, 0x00, 0x00, 0x41, 0x01, 0x00, 0x00];
    assert_eq!(huff_decompress(&short), Err(HuffError::DeserializationError));
    // symbols out of order
    let unsorted = vec![
        0x00, 0x0a, 0x00, 0x00, 0x00, 0x42, 0x01, 0x00, 0x00, 0x00, 0x41, 0x01, 0x00, 0x00, 0x00,
    ];
    assert_eq!(huff_decompress(&unsorted), Err(HuffError::DeserializationError));
    // a symbol twice
    let twice = vec![
        0x00, 0x0a, 0x00, 0x00, 0x00, 0x41, 0x01, 0x00, 0x00, 0x00, 0x41, 0x01, 0x00, 0x00, 0x00,
    ];
    assert_eq!(huff_decompress(&twice), Err(HuffError::DeserializationError));
    // a count of zero
    let zero = vec![0x00, 0x05, 0x00, 0x00, 0x00, 0x41, 0x00, 0x00, 0x00, 0x00];
    assert_eq!(huff_decompress(&zero), Err(HuffError::DeserializationError));
}

#[test]
fn an_empty_table_is_empty_input() {
    assert_eq!(huff_decompress(&vec![0x00, 0x00, 0x00, 0x00, 0x00]), Err(HuffError::EmptyInput));
    assert_eq!(
        huff_decompress(&vec![0x00, 0x00, 0x00, 0x00, 0x00, 0x12]),
        Err(HuffError::EmptyInput)
    );
}

#[test]
fn leftover_bits_are_a_truncated_stream() {
    // A gets 0, C gets 10, B gets 11: a lone 1 bit is the beginning of a code.
    let container: Vec<u8> = vec![
        0x06, 0x0f, 0x00, 0x00, 0x00, 0x41, 0x03, 0x00, 0x00, 0x00, 0x42, 0x02, 0x00, 0x00, 0x00,
        0x43, 0x01, 0x00, 0x00, 0x00, 0x1f, 0xc0,
    ];
    assert_eq!(huff_decompress(&container), Err(HuffError::TruncatedStream));
    // With a single symbol the only code is 0: a 1 bit never ends a code.
    let single = vec![0x00, 0x05, 0x00, 0x00, 0x00, 0x5a, 0x03, 0x00, 0x00, 0x00, 0x10];
    assert_eq!(huff_decompress(&single), Err(HuffError::TruncatedStream));
}

#[test]
fn padding_bits_are_not_decoded() {
    // The same stream with fewer bits counted as padding holds more symbols.
    let mut container: Vec<u8> = vec![
        0x07, 0x0f, 0x00, 0x00, 0x00, 0x41, 0x03, 0x00, 0x00, 0x00, 0x42, 0x02, 0x00, 0x00, 0x00,
        0x43, 0x01, 0x00, 0x00, 0x00, 0x1f, 0x00,
    ];
    assert_eq!(huff_decompress(&container).unwrap(), vec![0x41, 0x41, 0x41, 0x42, 0x42, 0x43]);
    container[0] = 5;
    assert_eq!(
        huff_decompress(&container).unwrap(),
        vec![0x41, 0x41, 0x41, 0x42, 0x42, 0x43, 0x41, 0x41]
    );
    container[0] = 0;
    assert_eq!(
        huff_decompress(&container).unwrap(),
        vec![0x41, 0x41, 0x41, 0x42, 0x42, 0x43, 0x41, 0x41, 0x41, 0x41, 0x41, 0x41, 0x41]
    );
}

#[test]
fn a_container_without_stream_decodes_to_nothing() {
    let container = vec![0x03, 0x05, 0x00, 0x00, 0x00, 0x41, 0x01, 0x00, 0x00, 0x00];
    assert_eq!(huff_decompress(&container).unwrap(), Vec::<u8>::new());
}

#[test]
fn a_large_buffer_round_trips() {
    let input = sample(300_000, 256, 2024);
    let container = huff_compress(&input).unwrap();
    assert!(container.len() < input.len());
    assert_eq!(huff_decompress(&container).unwrap(), input);
}
