# lz4_block

A compressor for the LZ4 block format, written and verified in Verus.

- `src/block.rs`: the block format, and what a block decodes to.
- `src/words.rs`: machine words read out of bytes, and how many bytes two of them share.
- `src/search.rs`: the greedy search for duplicates, and the block that it leads to.
- `src/encoder.rs`: the encoder, with `compress` and `compress_into`.
- `src/laws.rs`: what holds of every block that the encoder writes.
- `tests/`: the tests.
- `app/`: a program to profile the compressor with.

`compress` is proved to return `search::compressed` of its input, a block that decodes to that input.
The copies in a block are exact, reach back 65535 bytes at most, and leave the last five bytes of the
input to be literals.
