use lz4_block::encoder::{hash, Encoder};
use lz4_block::words::{
    common_bytes_of_blocks, get_common_bytes, is_little_endian, read_u16, read_u32, read_usize,
};

/// An encoder at the start of an input of 500 bytes at most.
fn encoder_for(input: &[u8]) -> Encoder<'_> {
    Encoder { input, output: Vec::new(), output_pos: 0, cur: 0, dict_bitshift: 9, dict: vec![0; 128] }
}

#[test]
fn hash_keeps_the_upper_bits_of_a_product() {
    assert_eq!(hash(0), 0);
    assert_eq!(hash(1), 2531);
    assert_eq!(hash(0x61616161), 595);
    assert_eq!(hash(0x64636261), 1584);
    assert_eq!(hash(0xFFFFFFFF), 1564);
}

#[test]
fn common_bytes_are_the_low_zero_bytes() {
    assert_eq!(get_common_bytes(0), usize::BITS / 8);
    assert_eq!(get_common_bytes(1), 0);
    assert_eq!(get_common_bytes(0x80), 0);
    assert_eq!(get_common_bytes(0x100), 1);
    assert_eq!(get_common_bytes(0x01FF_0000), 2);
    assert_eq!(get_common_bytes(0x8000_0000), 3);
    assert_eq!(get_common_bytes(usize::MAX), 0);
    assert_eq!(get_common_bytes(1 << (usize::BITS - 1)), usize::BITS / 8 - 1);
}

#[test]
fn words_are_native_endian() {
    let input = [0xAA, 1, 2, 3, 4, 5, 6, 7, 8];
    assert_eq!(read_u16(&input, 1), u16::from_ne_bytes([1, 2]));
    assert_eq!(read_u32(&input, 1), u32::from_ne_bytes([1, 2, 3, 4]));
    assert_eq!(read_u32(&input, 5), u32::from_ne_bytes([5, 6, 7, 8]));
    let word: u64 = if usize::BITS == 64 {
        u64::from_ne_bytes([1, 2, 3, 4, 5, 6, 7, 8])
    } else {
        u32::from_ne_bytes([1, 2, 3, 4]) as u64
    };
    assert_eq!(read_usize(&input, 1) as u64, word);
}

#[test]
fn the_byte_order_shows_in_a_word() {
    let (short, long) = if is_little_endian() {
        (0x0201, 0x04030201)
    } else {
        (0x0102, 0x01020304)
    };
    assert_eq!(read_u16(&[1, 2], 0), short);
    assert_eq!(read_u32(&[1, 2, 3, 4], 0), long);
    assert_eq!(is_little_endian(), 1u16.to_ne_bytes()[0] == 1);
}

#[test]
fn blocks_agree_up_to_the_first_difference() {
    let input = [1, 2, 3, 4, 1, 2, 9, 4, 1, 7, 3, 4];
    let whole = read_u32(&input, 0);
    let third = whole ^ read_u32(&input, 4);
    assert_eq!(common_bytes_of_blocks(&input, 0, 4, 4, third as usize), 2);
    let second = whole ^ read_u32(&input, 8);
    assert_eq!(common_bytes_of_blocks(&input, 0, 8, 4, second as usize), 1);
    let short = read_u16(&input, 0) ^ read_u16(&input, 6);
    assert_eq!(common_bytes_of_blocks(&input, 0, 6, 2, short as usize), 0);
}

#[test]
fn batches_are_four_bytes() {
    let input = b"abcdabce abcd";
    let encoder = encoder_for(input);
    assert_eq!(encoder.get_batch(0), u32::from_ne_bytes(*b"abcd"));
    assert_eq!(encoder.get_batch(4), u32::from_ne_bytes(*b"abce"));
    assert_eq!(encoder.get_batch(9), encoder.get_batch(0));
    assert_ne!(encoder.get_batch(4), encoder.get_batch(0));
}

#[test]
fn hashes_have_slots() {
    let input: Vec<u8> = (0..=255).collect();
    let mut encoder = encoder_for(&input);
    for pos in 0..input.len() - 3 {
        let slot = encoder.get_hash_at(pos);
        assert!(slot < 128);
        assert_eq!(slot, hash(encoder.get_batch(pos)) as usize >> 9);
        encoder.cur = pos;
        assert_eq!(encoder.get_cur_hash(), slot);
    }
}

#[test]
fn one_block_is_compared_behind_the_words() {
    // Six bytes may be compared.
    let input = [b'a'; 13];
    let mut encoder = encoder_for(&input);
    encoder.cur = 1;
    assert_eq!(encoder.count_same_bytes(5, 4), if usize::BITS == 64 { 4 } else { 6 });

    // Nine: a word or two, and one byte.
    let input = [b'a'; 16];
    let mut encoder = encoder_for(&input);
    encoder.cur = 1;
    assert_eq!(encoder.count_same_bytes(5, 4), 9);

    // Eleven: a word or two, and two bytes.
    let input = [b'a'; 18];
    let mut encoder = encoder_for(&input);
    encoder.cur = 1;
    assert_eq!(encoder.count_same_bytes(5, 4), 10);

    // None.
    encoder.cur = 13;
    assert_eq!(encoder.count_same_bytes(5, 4), 0);
}

#[test]
fn counting_stops_at_a_difference() {
    let input = b"aaaaaaaaaaaaabcd";
    let mut encoder = encoder_for(input);
    encoder.cur = 1;
    assert_eq!(encoder.count_same_bytes(5, 4), 8);

    let mut input = [7; 40];
    input[20] = 9;
    let mut encoder = encoder_for(&input);
    encoder.cur = 1;
    assert_eq!(encoder.count_same_bytes(5, 4), 15);
    assert_eq!(encoder.count_same_bytes(6, 4), 14);
}

#[test]
fn integers_are_written_in_lsic() {
    for (n, bytes) in [
        (0, vec![0]),
        (254, vec![254]),
        (255, vec![255, 0]),
        (256, vec![255, 1]),
        (510, vec![255, 255, 0]),
        (700, vec![255, 255, 190]),
    ] {
        let mut encoder = encoder_for(&[]);
        assert!(encoder.write_integer(n).is_ok());
        assert_eq!(encoder.output, bytes);
        assert_eq!(encoder.output_pos, bytes.len());
    }
}

#[test]
fn the_last_search_leaves_cursor_and_dictionary() {
    // Too short to be searched.
    let mut encoder = encoder_for(b"abcdefghijkl");
    assert_eq!(encoder.complete().unwrap(), 13);
    assert_eq!(encoder.cur, 0);
    assert_eq!(encoder.dict, vec![0; 128]);

    // One copy of ten bytes at position 1.
    let mut encoder = encoder_for(&[b'a'; 16]);
    assert_eq!(encoder.complete().unwrap(), 10);
    assert_eq!(encoder.cur, 11);
    let mut dict = vec![0; 128];
    dict[encoder.get_hash_at(1)] = 1;
    assert_eq!(encoder.dict, dict);

    // No copies: every position up to the twelfth byte from the end is tried.
    let input: Vec<u8> = (0..40).collect();
    let mut encoder = encoder_for(&input);
    assert_eq!(encoder.complete().unwrap(), 42);
    assert_eq!(encoder.cur, 29);
    let mut dict = vec![0; 128];
    for pos in 1..29 {
        dict[encoder.get_hash_at(pos)] = pos;
    }
    assert_eq!(encoder.dict, dict);
}

#[test]
fn a_search_moves_to_a_duplicate() {
    let mut encoder = encoder_for(&[b'a'; 24]);
    encoder.cur = 1;
    assert_eq!(encoder.find_duplicate(), Some(0));
    assert_eq!(encoder.cur, 1);
    assert!(encoder.encode_duplicate(0, 0).is_ok());
    assert_eq!(encoder.cur, 19);
    assert_eq!(encoder.output, [0x1E, b'a', 1, 0]);
    assert_eq!(encoder.find_duplicate(), None);
    assert_eq!(encoder.cur, 19);
    assert_eq!(encoder.handle_last_literals(19, 0).unwrap(), 10);
    assert_eq!(encoder.output, [0x1E, b'a', 1, 0, 0x50, b'a', b'a', b'a', b'a', b'a']);
}
