use lz4_block::{compress, compress_into};

/// Reads a length whose token half is `half`, moving `i` behind its extension.
fn read_length(block: &[u8], i: &mut usize, half: usize) -> usize {
    let mut n = half;
    if half == 15 {
        loop {
            let byte = block[*i];
            *i += 1;
            n += byte as usize;
            if byte != 0xFF {
                break;
            }
        }
    }
    n
}

/// Decodes a block, and lists its copies as position, offset and length.
fn decode(block: &[u8]) -> (Vec<u8>, Vec<(usize, usize, usize)>) {
    let mut out: Vec<u8> = Vec::new();
    let mut copies = Vec::new();
    let mut i = 0;
    loop {
        let token = block[i] as usize;
        i += 1;
        let lit_len = read_length(block, &mut i, token / 16);
        out.extend_from_slice(&block[i..i + lit_len]);
        i += lit_len;
        if i == block.len() {
            return (out, copies);
        }
        let offset = block[i] as usize + 256 * block[i + 1] as usize;
        i += 2;
        let len = read_length(block, &mut i, token % 16) + 4;
        copies.push((out.len(), offset, len));
        for _ in 0..len {
            out.push(out[out.len() - offset]);
        }
    }
}

fn step(state: u64) -> u64 {
    state
        .wrapping_mul(6364136223846793005)
        .wrapping_add(1442695040888963407)
}

/// `n` pseudorandom bytes in the bits of `mask`, seeded with `n`.
fn noise(n: usize, mask: u8) -> Vec<u8> {
    let mut state = n as u64;
    let mut out = Vec::new();
    for _ in 0..n {
        state = step(state);
        out.push((state >> 56) as u8 & mask);
    }
    out
}

/// `n` bytes of pseudorandom words, seeded with `n`.
fn text(n: usize) -> Vec<u8> {
    let words: [&[u8]; 11] = [
        b"the ", b"quick ", b"brown ", b"fox ", b"jumps ", b"over ", b"a ", b"lazy ", b"dog, ",
        b"and then ", b"sleeps. ",
    ];
    let mut state = n as u64;
    let mut out = Vec::new();
    while out.len() < n {
        state = step(state);
        out.extend_from_slice(words[(state >> 33) as usize % words.len()]);
    }
    out.truncate(n);
    out
}

fn checksum(bytes: &[u8]) -> u64 {
    let mut sum: u64 = 0xcbf29ce484222325;
    for byte in bytes {
        sum = (sum ^ *byte as u64).wrapping_mul(0x100000001b3);
    }
    sum
}

/// Holds the block for `input` to its length, its checksum and what it decodes to.
fn check_block(input: &[u8], len: usize, sum: u64) {
    let block = compress(input);
    assert_eq!(block.len(), len);
    assert_eq!(checksum(&block), sum);
    assert_eq!(decode(&block).0, input);
}

#[test]
fn empty_input_is_a_zero_token() {
    assert_eq!(compress(b""), [0]);
}

#[test]
fn short_inputs_are_all_literals() {
    assert_eq!(compress(b"a"), [0x10, b'a']);
    assert_eq!(compress(b"aaaaaaaaaaaa"), *b"\xC0aaaaaaaaaaaa");
    for n in 0..13 {
        let input = vec![b'x'; n];
        let mut expected = vec![16 * n as u8];
        expected.extend_from_slice(&input);
        assert_eq!(compress(&input), expected);
    }
}

#[test]
fn thirteen_bytes_are_searched() {
    assert_eq!(compress(&[b'a'; 13]), *b"\x13a\x01\x00\x50aaaaa");
}

#[test]
fn runs_become_overlapping_copies() {
    assert_eq!(compress(&[b'a'; 16]), *b"\x16a\x01\x00\x50aaaaa");
    assert_eq!(compress(&[b'a'; 40]), *b"\x1Fa\x01\x00\x0F\x50aaaaa");
}

#[test]
fn long_copies_extend_their_length() {
    assert_eq!(compress(&[b'a'; 300]), *b"\x1Fa\x01\x00\xFF\x14\x50aaaaa");
}

#[test]
fn repeated_words_are_copied() {
    assert_eq!(
        compress(b"abcabcabcabcabcabcabcabc"),
        *b"\x3Cabc\x03\x00\x50bcabc"
    );
}

#[test]
fn bytes_that_end_a_run_are_kept() {
    let one = compress(b"aaaaaaaaaaaaabcd");
    let other = compress(b"aaaaaaaaaaaaaacd");
    assert_eq!(one, *b"\x16a\x01\x00\x50aabcd");
    assert_eq!(other, *b"\x16a\x01\x00\x50aaacd");
    assert_ne!(one, other);
    assert_eq!(decode(&one).0, *b"aaaaaaaaaaaaabcd");
    assert_eq!(
        compress(b"bbabbbabbbabbbababa"),
        *b"\x46bbab\x04\x00\x50ababa"
    );
}

#[test]
fn long_literals_extend_their_length() {
    let cases: [(usize, &[u8]); 8] = [
        (14, &[0xE0]),
        (15, &[0xF0, 0]),
        (16, &[0xF0, 1]),
        (269, &[0xF0, 254]),
        (270, &[0xF0, 255, 0]),
        (271, &[0xF0, 255, 1]),
        (524, &[0xF0, 255, 254]),
        (525, &[0xF0, 255, 255, 0]),
    ];
    for (n, head) in cases {
        let input = noise(n, 0xFF);
        let mut expected = head.to_vec();
        expected.extend_from_slice(&input);
        assert_eq!(compress(&input), expected);
    }
}

#[test]
fn offsets_reach_sixteen_bits() {
    let word = b"0123456789ABCDEFGHIJ";
    for (distance, reached) in [(65534, true), (65535, true), (65536, false)] {
        let mut input = word.to_vec();
        input.resize(distance, b'a');
        input.extend_from_slice(word);
        input.extend_from_slice(b"tail of twelve");
        let (decoded, copies) = decode(&compress(&input));
        assert_eq!(decoded, input);
        assert_eq!(copies.len(), if reached { 2 } else { 1 });
        if reached {
            assert_eq!(copies[1], (distance + 7, distance, 13));
        }
    }
}

#[test]
fn every_dictionary_size() {
    check_block(&text(500), 440, 0x6e5cd15bbd167355);
    check_block(&text(501), 391, 0x4e807f513faaa642);
    check_block(&text(1_000), 712, 0xa036f55fa8ae28d6);
    check_block(&text(1_001), 589, 0xbe029ac63b4f1c5c);
    check_block(&text(4_000), 2188, 0xc6ba0552c093cc32);
    check_block(&text(4_001), 2005, 0xd011925a9ae43a10);
    check_block(&text(8_000), 3885, 0x23999a4ff104db9c);
    check_block(&text(8_001), 3748, 0x35bf07800d82739c);
    check_block(&text(16_000), 7582, 0x258e47b663f65a31);
    check_block(&text(16_001), 7579, 0xe97d5c074639bc8c);
    check_block(&text(100_000), 46609, 0xbdca60dfaac8e05f);
    check_block(&text(100_001), 46125, 0x48fd762d0a1b5abe);
    check_block(&text(400_000), 186400, 0xa43309ef7b05f94c);
    check_block(&text(400_001), 186058, 0x74c795056055fbaa);
}

#[test]
fn noise_is_skipped_over() {
    check_block(&noise(3_000, 0xFF), 3013, 0x3183b65e2faa3464);
    check_block(&noise(9_000, 0xFF), 9037, 0x2434f521c4eeea0e);
    check_block(&noise(70_000, 0xFF), 70276, 0x1e0723827b580122);
    check_block(&noise(70_000, 0x0F), 70242, 0xc144450ae246364a);
    check_block(&noise(20_000, 0x03), 15486, 0x76624ed7b8df4674);
}

#[test]
fn blocks_decode_to_their_inputs() {
    for n in 0..2_000 {
        for mask in [0x01, 0x07, 0xFF] {
            let input = noise(n, mask);
            let block = compress(&input);
            assert!(block.len() <= n + n / 255 + 2);
            let (decoded, copies) = decode(&block);
            assert_eq!(decoded, input);
            let mut end = 0;
            for (at, offset, len) in copies {
                assert!(end <= at && at + 12 <= n && at + len + 5 <= n);
                assert!(1 <= offset && offset <= at && offset <= 0xFFFF && len >= 4);
                end = at + len;
            }
        }
    }
}

#[test]
fn different_inputs_have_different_blocks() {
    let mut blocks: Vec<Vec<u8>> = Vec::new();
    for bits in 0..1 << 16 {
        let input: Vec<u8> = (0..16).map(|i| b'a' + (bits >> i & 1) as u8).collect();
        blocks.push(compress(&input));
    }
    blocks.sort();
    blocks.dedup();
    assert_eq!(blocks.len(), 1 << 16);
}

#[test]
fn compress_into_fills_an_empty_vector() {
    for input in [&b""[..], b"short", b"abcabcabcabcabcabcabcabc", &text(700)] {
        let mut output = Vec::with_capacity(16 + 2 * input.len());
        let n = compress_into(input, &mut output).unwrap();
        assert_eq!(n, output.len());
        assert_eq!(output, compress(input));
    }
}

#[test]
fn compress_into_writes_over_the_front() {
    let mut output = vec![9; 8];
    assert_eq!(compress_into(b"abc", &mut output).unwrap(), 4);
    assert_eq!(output, [0x30, b'a', b'b', b'c', 9, 9, 9, 9]);
}

#[test]
fn compress_into_grows_a_short_vector() {
    let mut output = vec![9; 2];
    assert_eq!(compress_into(b"abc", &mut output).unwrap(), 4);
    assert_eq!(output, [0x30, b'a', b'b', b'c']);
}
