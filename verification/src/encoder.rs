//! The encoder: it walks over the input, looks for duplicates and writes the block.

use vstd::prelude::*;
use crate::block;
use crate::block::{MAX_DISTANCE, MINMATCH};
use crate::laws;
use crate::search;
use crate::search::{END_OFFSET, LZ4_HASHLOG, LZ4_MIN_LENGTH, LZ4_SKIPTRIGGER, MFLIMIT};
use crate::words;
use crate::words::{common_bytes_of_blocks, read_u16, read_u32, read_usize};

verus! {

/// `std::io::Error`, as an opaque type. Nothing is claimed of its values.
#[verifier::external_type_specification]
#[verifier::external_body]
pub struct ExIoError(std::io::Error);

/// `buf` after `bytes` have been written over it from `pos` on. It grows where they reach past its
/// end.
pub open spec fn written(buf: Seq<u8>, pos: int, bytes: Seq<u8>) -> Seq<u8> {
    let end = pos + bytes.len();
    buf.take(pos) + bytes + if end < buf.len() {
        buf.skip(end)
    } else {
        Seq::empty()
    }
}

/// Writing puts the bytes where they are meant to go, keeps all others, and makes the buffer no longer
/// than it has to be.
pub proof fn law_written(buf: Seq<u8>, pos: int, bytes: Seq<u8>)
    requires
        0 <= pos <= buf.len(),
    ensures
        written(buf, pos, bytes).len() == if pos + bytes.len() < buf.len() {
            buf.len() as int
        } else {
            pos + bytes.len()
        },
        forall|i: int| 0 <= i < bytes.len() ==> written(buf, pos, bytes)[pos + i] == #[trigger] bytes[i],
        forall|i: int|
            0 <= i < pos || pos + bytes.len() <= i < buf.len() ==> written(buf, pos, bytes)[i]
                == #[trigger] buf[i],
{
}

/// Writing one run of bytes and then another behind it is writing both at once.
proof fn lemma_written_twice(buf: Seq<u8>, pos: int, a: Seq<u8>, b: Seq<u8>)
    requires
        0 <= pos <= buf.len(),
    ensures
        written(written(buf, pos, a), pos + a.len(), b) == written(buf, pos, a + b),
{
    assert(written(written(buf, pos, a), pos + a.len(), b) =~= written(buf, pos, a + b));
}

/// The hash of a batch, in `LZ4_HASHLOG` bits.
pub fn hash(sequence: u32) -> (res: u32)
    ensures
        res == search::batch_hash(sequence as nat),
        res < 4096,
        res * 0x10_0000 <= (sequence * 2654435761) % 0x1_0000_0000 < (res + 1) * 0x10_0000,
{
    let product = sequence.wrapping_mul(2654435761u32);
    proof {
        assert(product >> 20u32 == product / 0x10_0000) by (bit_vector);
    }
    product >> (1 + (MINMATCH as u32 * 8) - (LZ4_HASHLOG + 1))
}

/// An LZ4 encoder.
///
/// [`compress_into`] sets one up and lets it complete a block.
pub struct Encoder<'a> {
    /// The raw uncompressed input.
    pub input: &'a [u8],
    /// The buffer that the compressed output is written to.
    pub output: Vec<u8>,
    /// Where in the buffer the next byte of output goes.
    pub output_pos: usize,
    /// The number of bytes from the input that are encoded.
    pub cur: usize,
    /// Shifts the hash value for the dictionary to the right, to match the dictionary size.
    pub dict_bitshift: u8,
    /// The dictionary of previously encoded sequences.
    ///
    /// This is used to find duplicates in the stream so they are not written multiple times.
    ///
    /// Every four bytes are hashed, and in the resulting slot their position in the input buffer
    /// is placed. This way a candidate for a back reference is easily looked up.
    pub dict: Vec<usize>,
}

impl<'a> Encoder<'a> {
    /// The output position lies in the buffer, and every hash has a slot in the dictionary.
    pub open spec fn wf(self) -> bool {
        &&& self.output_pos <= self.output.len()
        &&& self.dict_bitshift < 32
        &&& 4095nat / vstd::arithmetic::power2::pow2(self.dict_bitshift as nat) < self.dict.len()
    }

    /// `bytes` have been written to the output of `before`, and nothing else has changed.
    pub open spec fn emitted(self, before: Encoder<'a>, bytes: Seq<u8>) -> bool {
        &&& self.input == before.input
        &&& self.cur == before.cur
        &&& self.dict_bitshift == before.dict_bitshift
        &&& self.dict@ == before.dict@
        &&& self.output_pos == before.output_pos + bytes.len()
        &&& self.output@ == written(before.output@, before.output_pos as int, bytes)
    }

    /// Every position in the dictionary stands in its own slot and is one that the search has
    /// tried.
    pub open spec fn dict_sound(self) -> bool {
        &&& search::filed(self.input@, self.dict_bitshift as nat, self.dict@)
        &&& forall|i: int|
            0 <= i < self.dict@.len() ==> self.dict@[i] <= self.input@.len() - MFLIMIT
    }

    /// Every position in the dictionary comes before the cursor.
    pub open spec fn dict_before_cursor(self) -> bool {
        forall|i: int| 0 <= i < self.dict@.len() ==> self.dict@[i] < self.cur
    }

    /// Writes one byte to the output.
    fn push_byte(&mut self, el: u8)
        requires
            old(self).wf(),
        ensures
            final(self).wf(),
            final(self).emitted(*old(self), seq![el]),
    {
        if self.output_pos < self.output.len() {
            self.output[self.output_pos] = el;
        } else {
            self.output.push(el);
        }
        assert(self.output_pos < self.output.len());
        self.output_pos += 1;
        assert(self.output@ =~= written(old(self).output@, old(self).output_pos as int, seq![el]));
    }

    /// Copies `num_items` bytes of the input, from `start` on, to the output.
    fn copy_literals(&mut self, start: usize, num_items: usize)
        requires
            old(self).wf(),
            start + num_items <= old(self).input@.len(),
        ensures
            final(self).wf(),
            final(self).emitted(
                *old(self),
                old(self).input@.subrange(start as int, start + num_items),
            ),
    {
        let input = self.input;
        let mut i: usize = 0;
        assert(written(self.output@, self.output_pos as int, Seq::empty()) =~= self.output@);
        assert(input@.subrange(start as int, start as int) =~= Seq::empty());
        while i < num_items
            invariant
                input == old(self).input,
                start + num_items <= input.len(),
                i <= num_items,
                old(self).wf(),
                self.wf(),
                self.emitted(*old(self), input@.subrange(start as int, start + i)),
            decreases num_items - i,
        {
            proof {
                lemma_written_twice(
                    old(self).output@,
                    old(self).output_pos as int,
                    input@.subrange(start as int, start + i),
                    seq![input@[start + i]],
                );
                assert(input@.subrange(start as int, start + i) + seq![input@[start + i]]
                    =~= input@.subrange(start as int, start + i + 1));
            }
            self.push_byte(input[start + i]);
            i += 1;
        }
    }

    /// Get the hash of the current four bytes below the cursor.
    ///
    /// This is guaranteed to be below the size of the dictionary.
    pub fn get_cur_hash(&self) -> (res: usize)
        requires
            self.wf(),
            self.cur + 4 <= self.input.len(),
        ensures
            res == search::slot(self.input@, self.cur as int, self.dict_bitshift as nat),
            res < self.dict.len(),
            ({
                let product = (search::batch(self.input@, self.cur as int) * 2654435761)
                    % 0x1_0000_0000;
                let unit = vstd::arithmetic::power2::pow2(self.dict_bitshift as nat);
                res * unit <= product / 0x10_0000 < (res + 1) * unit
            }),
    {
        self.get_hash_at(self.cur)
    }

    /// Get the hash of the four bytes at some position.
    ///
    /// This is guaranteed to be below the size of the dictionary.
    pub fn get_hash_at(&self, pos: usize) -> (res: usize)
        requires
            self.wf(),
            pos + 4 <= self.input.len(),
        ensures
            res == search::slot(self.input@, pos as int, self.dict_bitshift as nat),
            res < self.dict.len(),
            ({
                let product = (search::batch(self.input@, pos as int) * 2654435761)
                    % 0x1_0000_0000;
                let unit = vstd::arithmetic::power2::pow2(self.dict_bitshift as nat);
                res * unit <= product / 0x10_0000 < (res + 1) * unit
            }),
    {
        let full: usize = hash(self.get_batch(pos)) as usize;
        proof {
            let divisor = vstd::arithmetic::power2::pow2(self.dict_bitshift as nat);
            search::law_slot_is_upper_bits(self.input@, pos as int, self.dict_bitshift as nat);
            vstd::bits::lemma_usize_shr_is_div(full, self.dict_bitshift as usize);
            vstd::arithmetic::power2::lemma_pow2_pos(self.dict_bitshift as nat);
            vstd::arithmetic::div_mod::lemma_div_is_ordered(full as int, 4095, divisor as int);
        }
        full >> (self.dict_bitshift as usize)
    }

    /// Read a 4-byte "batch" from some position.
    ///
    /// This will read a native-endian 4-byte integer from some position.
    pub fn get_batch(&self, n: usize) -> (batch: u32)
        requires
            n + 4 <= self.input.len(),
        ensures
            batch == search::batch(self.input@, n as int),
            vstd::endian::endianness() is Little ==> batch == self.input@[n as int] + 0x100
                * self.input@[n + 1] + 0x1_0000 * self.input@[n + 2] + 0x100_0000 * self.input@[n
                + 3],
            vstd::endian::endianness() is Big ==> batch == 0x100_0000 * self.input@[n as int]
                + 0x1_0000 * self.input@[n + 1] + 0x100 * self.input@[n + 2] + self.input@[n + 3],
    {
        read_u32(self.input, n)
    }

    /// Write an integer to the output in LSIC format.
    pub fn write_integer(&mut self, n: usize) -> (res: std::io::Result<()>)
        requires
            old(self).wf(),
        ensures
            final(self).wf(),
            res is Ok,
            final(self).emitted(*old(self), block::lsic(n as nat)),
            final(self).output_pos == old(self).output_pos + n / 255 + 1,
            forall|i: int|
                old(self).output_pos <= i < final(self).output_pos - 1 ==> final(self).output@[i]
                    == 0xFF,
            final(self).output@[final(self).output_pos - 1] == n % 255,
    {
        let mut left: usize = n;
        let ghost mut done: Seq<u8> = Seq::empty();
        assert(written(self.output@, self.output_pos as int, done) =~= self.output@);
        assert(done + block::lsic(n as nat) =~= block::lsic(n as nat));
        // Write the 0xFF bytes as long as the integer is higher than said value.
        while left >= 0xFF
            invariant
                old(self).wf(),
                self.wf(),
                self.emitted(*old(self), done),
                done + block::lsic(left as nat) == block::lsic(n as nat),
            decreases left,
        {
            proof {
                block::lemma_lsic_unfold(left as nat);
                lemma_written_twice(
                    old(self).output@,
                    old(self).output_pos as int,
                    done,
                    seq![0xFFu8],
                );
                assert(done + seq![0xFFu8] + block::lsic((left - 0xFF) as nat) =~= done + (
                seq![0xFFu8] + block::lsic((left - 0xFF) as nat)));
                done = done + seq![0xFFu8];
            }
            left -= 0xFF;
            self.push_byte(0xFF);
        }

        // Write the remaining byte.
        proof {
            assert(block::lsic(left as nat) =~= seq![left as u8]);
            lemma_written_twice(
                old(self).output@,
                old(self).output_pos as int,
                done,
                seq![left as u8],
            );
        }
        self.push_byte(left as u8);
        Ok(())
    }

    /// Count the bytes on which the runs at `first` and `second` agree. How many are compared
    /// depends on how far the cursor is from the end of the input: whole words, as long as they
    /// fit, and then one smaller block.
    pub fn count_same_bytes(&self, first: usize, second: usize) -> (count: usize)
        requires
            first + search::compare_limit(self.input@, self.cur as int) <= self.input.len(),
            second + search::compare_limit(self.input@, self.cur as int) <= self.input.len(),
        ensures
            count == words::common_bytes(
                self.input@,
                first as int,
                second as int,
                search::compared_bytes(search::compare_limit(self.input@, self.cur as int)),
            ),
            forall|j: int|
                0 <= j < count ==> self.input@[#[trigger] (first + j)] == self.input@[second + j],
            count > 0 ==> self.cur + count + 6 <= self.input.len(),
            self.cur + count + 9 < self.input.len() ==> self.input@[first + count]
                != self.input@[second + count],
    {
        let input = self.input;
        let limit: usize = if self.cur < input.len() && input.len() - self.cur > END_OFFSET + 1 {
            input.len() - self.cur - END_OFFSET - 1
        } else {
            0
        };
        let ghost compared = search::compared_bytes(limit as nat);
        let mut pos: usize = 0;

        // compare 4/8 bytes blocks depending on the arch
        let step_size: usize = (usize::BITS / 8) as usize;
        while limit - pos >= step_size
            invariant
                input == self.input,
                limit == search::compare_limit(input@, self.cur as int),
                compared == search::compared_bytes(limit as nat),
                first + limit <= input.len(),
                second + limit <= input.len(),
                step_size == words::word_bytes(),
                pos <= limit,
                pos % step_size == 0,
                words::common_bytes(input@, first as int, second as int, pos as nat) == pos,
            decreases limit - pos,
        {
            let a: usize = read_usize(input, first + pos);
            let b: usize = read_usize(input, second + pos);
            let diff: usize = a ^ b;
            proof {
                vstd::arithmetic::div_mod::lemma_mod_add_multiples_vanish(
                    pos as int,
                    step_size as int,
                );
                search::lemma_compared_bytes_words(limit as nat, (pos + step_size) as nat);
                search::lemma_counted_bytes(
                    input@,
                    self.cur as int,
                    first as int,
                    second as int,
                );
                words::lemma_block_compared(
                    input@,
                    first as int,
                    second as int,
                    compared,
                    pos as nat,
                    a as u64,
                    b as u64,
                    step_size as nat,
                );
            }
            if diff == 0 {
                pos += step_size;
            } else {
                return pos + common_bytes_of_blocks(
                    input,
                    first + pos,
                    second + pos,
                    step_size,
                    diff,
                );
            }
        }
        proof {
            search::lemma_compared_bytes_rest(limit as nat, pos as nat);
            search::lemma_counted_bytes(input@, self.cur as int, first as int, second as int);
        }

        // compare 4 bytes block
        if limit - pos >= 4 {
            let a: u32 = read_u32(input, first + pos);
            let b: u32 = read_u32(input, second + pos);
            let diff: u32 = a ^ b;
            proof {
                words::lemma_block_compared(
                    input@,
                    first as int,
                    second as int,
                    compared,
                    pos as nat,
                    a as u64,
                    b as u64,
                    4,
                );
            }
            if diff == 0 {
                return pos + 4;
            } else {
                return pos + common_bytes_of_blocks(
                    input,
                    first + pos,
                    second + pos,
                    4,
                    diff as usize,
                );
            }
        }

        // compare 2 bytes block
        if limit - pos >= 2 {
            let a: u16 = read_u16(input, first + pos);
            let b: u16 = read_u16(input, second + pos);
            let diff: u16 = a ^ b;
            proof {
                words::lemma_block_compared(
                    input@,
                    first as int,
                    second as int,
                    compared,
                    pos as nat,
                    a as u64,
                    b as u64,
                    2,
                );
            }
            if diff == 0 {
                return pos + 2;
            } else {
                return pos + common_bytes_of_blocks(
                    input,
                    first + pos,
                    second + pos,
                    2,
                    diff as usize,
                );
            }
        }

        // compare the last byte
        proof {
            words::lemma_common_bytes_split(
                input@,
                first as int,
                second as int,
                pos as nat,
                (limit - pos) as nat,
            );
            reveal_with_fuel(words::common_bytes, 2);
        }
        if limit - pos >= 1 && input[first + pos] == input[second + pos] {
            pos += 1;
        }

        pos
    }

    /// Write a token and then the literals between `start` and `end`. The token also announces a
    /// copy of `match_length` bytes more than the shortest one.
    fn write_literals(&mut self, start: usize, end: usize, match_length: usize) -> (res:
        std::io::Result<()>)
        requires
            old(self).wf(),
            start <= end <= old(self).input@.len(),
        ensures
            final(self).wf(),
            res is Ok,
            final(self).emitted(
                *old(self),
                block::literals(
                    old(self).input@.subrange(start as int, end as int),
                    match_length as nat,
                ),
            ),
    {
        // The length (in bytes) of the literals section.
        let lit_len: usize = end - start;
        // Generate the higher half of the token.
        let high: u8 = if lit_len < 0xF {
            // Since we can fit the literals length into it, there is no need for saturation.
            lit_len as u8
        } else {
            // We were unable to fit the literals into it, so we saturate to 0xF. We will later
            // write the extensional value through LSIC encoding.
            0xF
        };
        // Generate the lower half of the token, the duplicates length.
        let low: u8 = if match_length < 0xF {
            // We could fit it in.
            match_length as u8
        } else {
            // We were unable to fit it in, so we default to 0xF, which will later be extended
            // by LSIC encoding.
            0xF
        };
        assert((high << 4) | low == 16 * high + low) by (bit_vector)
            requires
                high < 16,
                low < 16,
        ;
        let token: u8 = (high << 4) | low;

        let ghost lits = self.input@.subrange(start as int, end as int);
        let ghost extension = block::extension(lit_len as nat);
        proof {
            let buf = self.output@;
            let pos = self.output_pos as int;
            lemma_written_twice(buf, pos, seq![token], extension);
            lemma_written_twice(buf, pos, seq![token] + extension, lits);
        }
        // Push the token to the output stream.
        self.push_byte(token);
        // If we were unable to fit the literals length into the token, write the extensional
        // part through LSIC.
        self.write_extension(lit_len)?;
        // Now, write the actual literals.
        self.copy_literals(start, lit_len);
        Ok(())
    }

    /// Write what the token could not hold of the length `n`.
    fn write_extension(&mut self, n: usize) -> (res: std::io::Result<()>)
        requires
            old(self).wf(),
        ensures
            final(self).wf(),
            res is Ok,
            final(self).emitted(*old(self), block::extension(n as nat)),
    {
        if n >= 0xF {
            self.write_integer(n - 0xF)?;
        } else {
            assert(written(self.output@, self.output_pos as int, Seq::empty()) =~= self.output@);
        }
        Ok(())
    }

    /// Complete the encoding into the output. The output that began at `out_start` then holds the
    /// returned number of bytes.
    pub fn handle_last_literals(&mut self, start: usize, out_start: usize) -> (res: std::io::Result<
        usize,
    >)
        requires
            old(self).wf(),
            start <= old(self).input@.len(),
            out_start <= old(self).output_pos,
        ensures
            final(self).wf(),
            final(self).emitted(
                *old(self),
                block::literals(old(self).input@.skip(start as int), 0),
            ),
            res matches Ok(n) && n == final(self).output_pos - out_start,
    {
        let end: usize = self.input.len();
        assert(self.input@.subrange(start as int, end as int) =~= self.input@.skip(start as int));
        // copy the last literals
        self.write_literals(start, end, 0)?;
        Ok(self.output_pos - out_start)
    }

    /// Write a sequence: the literals between `start` and `end`, and a copy of `match_length` bytes
    /// more than the shortest one that starts `offset` bytes back.
    fn write_sequence(&mut self, start: usize, end: usize, offset: u16, match_length: usize) -> (res:
        std::io::Result<()>)
        requires
            old(self).wf(),
            start <= end <= old(self).input@.len(),
        ensures
            final(self).wf(),
            res is Ok,
            final(self).emitted(
                *old(self),
                block::sequence(
                    old(self).input@.subrange(start as int, end as int),
                    offset as nat,
                    match_length as nat,
                ),
            ),
    {
        proof {
            let buf = self.output@;
            let pos = self.output_pos as int;
            let lits = block::literals(
                self.input@.subrange(start as int, end as int),
                match_length as nat,
            );
            let low = seq![(offset % 256) as u8];
            let high = seq![(offset / 256) as u8];
            lemma_written_twice(buf, pos, lits, low);
            lemma_written_twice(buf, pos, lits + low, high);
            lemma_written_twice(buf, pos, lits + low + high, block::extension(match_length as nat));
            assert(lits + low + high =~= lits + block::offset_bytes(offset as nat));
        }
        self.write_literals(start, end, match_length)?;
        // write the offset in little endian.
        self.push_byte((offset % 256) as u8);
        self.push_byte((offset / 256) as u8);
        // If we were unable to fit the duplicates length into the token, write the
        // extensional part through LSIC.
        self.write_extension(match_length)
    }

    /// Move the cursor to the first position from it on whose bytes can be copied from an earlier
    /// one, and return the earlier position. If there is none before the end of the input is near,
    /// return `None`.
    pub fn find_duplicate(&mut self) -> (found: Option<usize>)
        requires
            old(self).wf(),
            MFLIMIT <= old(self).input.len(),
            old(self).dict_sound(),
            old(self).dict_before_cursor(),
        ensures
            final(self).wf(),
            final(self).input == old(self).input,
            final(self).dict_bitshift == old(self).dict_bitshift,
            final(self).dict@.len() == old(self).dict@.len(),
            final(self).output_pos == old(self).output_pos,
            final(self).output@ == old(self).output@,
            final(self).dict_sound(),
            forall|i: int|
                0 <= i < final(self).dict@.len() ==> final(self).dict@[i] <= final(self).cur,
            ({
                let stop = search::search(
                    old(self).input@,
                    old(self).dict_bitshift as nat,
                    old(self).dict@,
                    0,
                    old(self).cur as int,
                );
                &&& final(self).cur == search::cursor_at(stop.at)
                &&& stop.at <= usize::MAX ==> final(self).cur == stop.at
                &&& final(self).dict@ == stop.dict
                &&& match stop.source {
                    None => found is None && final(self).cur > final(self).input.len() - MFLIMIT,
                    Some(source) => {
                        &&& found matches Some(candidate)
                        &&& candidate == source
                        &&& candidate < final(self).cur
                        &&& final(self).cur == stop.at
                    },
                }
            }),
    {
        let end_pos_check: usize = self.input.len() - MFLIMIT;
        let mut non_match_count: usize = 1 << LZ4_SKIPTRIGGER;
        assert(1usize << 6usize == 64) by (bit_vector);
        let mut next_cur: usize = self.cur;
        let ghost bitshift = self.dict_bitshift as nat;
        let ghost mut at: int = self.cur as int;
        loop
            invariant
                self.wf(),
                self.input == old(self).input,
                self.dict_bitshift == old(self).dict_bitshift,
                self.output_pos == old(self).output_pos,
                self.output@ == old(self).output@,
                self.dict@.len() == old(self).dict@.len(),
                self.dict_sound(),
                bitshift == self.dict_bitshift,
                MFLIMIT <= self.input.len(),
                end_pos_check == self.input.len() - MFLIMIT,
                next_cur == search::cursor_at(at),
                non_match_count >= 64,
                at >= old(self).cur + (non_match_count - 64),
                at >= old(self).cur + 2 * (non_match_count - 64) - 63,
                forall|i: int| 0 <= i < self.dict@.len() ==> self.dict@[i] < next_cur,
                search::search(
                    old(self).input@,
                    bitshift,
                    old(self).dict@,
                    0,
                    old(self).cur as int,
                ) == search::search(
                    self.input@,
                    bitshift,
                    self.dict@,
                    (non_match_count - 64) as nat,
                    at,
                ),
            decreases search::remaining(self.input@, at),
        {
            self.cur = next_cur;
            if self.cur > end_pos_check {
                return None;
            }
            non_match_count += 1;
            assert(non_match_count >> 6usize == non_match_count / 64) by (bit_vector);
            let step_size: usize = non_match_count >> LZ4_SKIPTRIGGER;
            next_cur = next_cur.saturating_add(step_size);

            // Find a candidate in the dictionary with the hash of the current four bytes.
            let hash: usize = self.get_cur_hash();
            let candidate: usize = self.dict[hash];
            proof {
                search::lemma_filing_one(self.input@, bitshift, self.dict@, at);
            }
            self.dict[hash] = self.cur;

            // Two requirements to the candidate exist:
            // - We should not return a position which is merely a hash collision, so that the
            //   candidate actually matches what we search for.
            // - We can address up to 16-bit offset, hence we are only able to address the candidate
            //   if its offset is less than or equals to 0xFFFF.
            if self.cur - candidate <= MAX_DISTANCE && self.get_batch(candidate) == self.get_batch(
                self.cur,
            ) {
                return Some(candidate);
            }
            proof {
                at = at + step_size;
            }
        }
    }

    /// Encode the literals from `start` up to the cursor, and the bytes at the cursor as a copy of
    /// those at `candidate`. Moves the cursor behind them.
    pub fn encode_duplicate(&mut self, start: usize, candidate: usize) -> (res: std::io::Result<()>)
        requires
            old(self).wf(),
            start <= old(self).cur,
            old(self).cur + MFLIMIT <= old(self).input.len(),
            candidate < old(self).cur,
            old(self).cur - candidate <= MAX_DISTANCE,
        ensures
            final(self).wf(),
            res is Ok,
            final(self).input == old(self).input,
            final(self).dict_bitshift == old(self).dict_bitshift,
            final(self).dict@ == old(self).dict@,
            final(self).cur == old(self).cur + search::copy_length(
                old(self).input@,
                old(self).cur as int,
                candidate as int,
            ),
            final(self).cur <= old(self).input.len(),
            ({
                let bytes = search::sequence_for(
                    old(self).input@,
                    start as int,
                    old(self).cur as int,
                    candidate as int,
                );
                &&& final(self).output_pos == old(self).output_pos + bytes.len()
                &&& final(self).output@ == written(
                    old(self).output@,
                    old(self).output_pos as int,
                    bytes,
                )
            }),
    {
        let offset: u16 = (self.cur - candidate) as u16;
        let first: usize = self.cur + MINMATCH;
        let second: usize = candidate + MINMATCH;
        let same: usize = self.count_same_bytes(first, second);
        // The last bytes of the input should be literals.
        let most: usize = self.input.len() - END_OFFSET - first;
        let match_length: usize = if same < most {
            same
        } else {
            most
        };
        proof {
            search::lemma_compared_bytes_bound(
                search::compare_limit(self.input@, self.cur as int),
            );
            words::lemma_common_bytes_cut(
                self.input@,
                first as int,
                second as int,
                most as nat,
                search::compared_bytes(search::compare_limit(self.input@, self.cur as int)),
            );
            search::lemma_copy_length_bound(self.input@, self.cur as int, candidate as int);
        }
        let literals_end: usize = self.cur;
        self.cur += match_length + MINMATCH;
        self.write_sequence(start, literals_end, offset, match_length)
    }

    /// Compress the whole input, behind what has been output before. Returns how many bytes that
    /// took.
    pub fn complete(&mut self) -> (res: std::io::Result<usize>)
        requires
            old(self).wf(),
            old(self).cur == 0,
            old(self).dict_bitshift == search::dictionary(old(self).input@.len()).1,
            old(self).dict@ == search::empty_dict(old(self).input@),
        ensures
            final(self).wf(),
            final(self).input == old(self).input,
            final(self).dict_bitshift == old(self).dict_bitshift,
            final(self).dict@.len() == old(self).dict@.len(),
            res matches Ok(n) && n == search::compressed(old(self).input@).len(),
            final(self).output_pos == old(self).output_pos + search::compressed(
                old(self).input@,
            ).len(),
            final(self).output@ == written(
                old(self).output@,
                old(self).output_pos as int,
                search::compressed(old(self).input@),
            ),
            final(self).cur == search::cursor_at(search::last_stop(old(self).input@).at),
            search::last_stop(old(self).input@).at <= usize::MAX ==> final(self).cur
                == search::last_stop(old(self).input@).at,
            final(self).dict@ == search::last_stop(old(self).input@).dict,
            old(self).input@.len() >= LZ4_MIN_LENGTH ==> {
                &&& final(self).cur > old(self).input@.len() - MFLIMIT
                &&& final(self).dict_sound()
            },
    {
        let out_start: usize = self.output_pos;
        let ghost buf = self.output@;
        let ghost input = self.input@;
        let ghost bitshift = self.dict_bitshift as nat;
        /* Input too small, no compression (all literals) */
        if self.input.len() < LZ4_MIN_LENGTH {
            return self.handle_last_literals(0, out_start);
        }
        let mut start: usize = self.cur;
        let hash: usize = self.get_cur_hash();
        self.dict[hash] = self.cur;
        assert(self.dict@ =~= search::empty_dict(input));
        self.cur += 1;
        let ghost mut done: Seq<u8> = Seq::empty();
        assert(written(buf, out_start as int, done) =~= buf);
        proof {
            reveal(search::rest_of_block);
            assert(done + search::compressed(input) =~= search::compressed(input));
        }

        loop
            invariant
                input == old(self).input@,
                buf == old(self).output@,
                out_start == old(self).output_pos,
                bitshift == old(self).dict_bitshift,
                self.wf(),
                self.input == old(self).input,
                LZ4_MIN_LENGTH <= self.input.len(),
                self.dict_bitshift == bitshift,
                self.dict@.len() == old(self).dict@.len(),
                out_start <= buf.len(),
                self.output_pos == out_start + done.len(),
                self.output@ == written(buf, out_start as int, done),
                start <= self.cur <= input.len(),
                self.dict_sound(),
                self.dict_before_cursor(),
                done + search::rest_of_block(
                    input,
                    bitshift,
                    self.dict@,
                    self.cur as int,
                    start as int,
                ) == search::compressed(input),
                search::last_stop_from(input, bitshift, self.dict@, self.cur as int)
                    == search::last_stop(input),
            decreases input.len() - self.cur,
        {
            // Read the next block into two sections, the literals and the duplicates.
            proof {
                search::lemma_search_bounds(input, bitshift, self.dict@, 0, self.cur as int);
                search::lemma_block_step(
                    input,
                    bitshift,
                    self.dict@,
                    self.cur as int,
                    start as int,
                );
            }
            match self.find_duplicate() {
                None => {
                    proof {
                        lemma_written_twice(
                            buf,
                            out_start as int,
                            done,
                            block::literals(input.skip(start as int), 0),
                        );
                    }
                    return self.handle_last_literals(start, out_start);
                },
                Some(candidate) => {
                    let ghost at = self.cur as int;
                    self.encode_duplicate(start, candidate)?;
                    proof {
                        let bytes = search::sequence_for(input, start as int, at, candidate as int);
                        let rest = search::rest_of_block(
                            input,
                            bitshift,
                            self.dict@,
                            self.cur as int,
                            self.cur as int,
                        );
                        lemma_written_twice(buf, out_start as int, done, bytes);
                        assert((done + bytes) + rest =~= done + (bytes + rest));
                        done = done + bytes;
                    }
                    start = self.cur;
                },
            }
        }
    }
}

/// Compress all bytes of `input` into `output`.
///
/// The block is written over the front of `output`, which grows if the block is longer. Returns
/// the length of the block. The block decodes to `input`.
pub fn compress_into(input: &[u8], output: &mut Vec<u8>) -> (res: std::io::Result<usize>)
    ensures
        res matches Ok(n) && n == search::compressed(input@).len(),
        final(output)@ == written(old(output)@, 0, search::compressed(input@)),
        res matches Ok(n) && final(output)@.len() == if n < old(output)@.len() {
            old(output)@.len()
        } else {
            n as nat
        },
        res matches Ok(n) && final(output)@.take(n as int) == search::compressed(input@),
        res matches Ok(n) && forall|i: int|
            n <= i < old(output)@.len() ==> final(output)@[i] == #[trigger] old(output)@[i],
        res matches Ok(n) && block::decode(final(output)@.take(n as int)) == Some(input@),
{
    let len: usize = input.len();
    let (dict_size, dict_bitshift): (usize, u8) = if len <= 500 {
        (128, 9)
    } else if len <= 1_000 {
        (256, 8)
    } else if len <= 4_000 {
        (512, 7)
    } else if len <= 8_000 {
        (1024, 6)
    } else if len <= 16_000 {
        (2048, 5)
    } else if len <= 100_000 {
        (4096, 4)
    } else if len <= 400_000 {
        (8192, 3)
    } else {
        (16384, 2)
    };
    let dict: Vec<usize> = vec![0; dict_size];
    assert(dict@ =~= search::empty_dict(input@));
    proof {
        search::law_every_hash_has_a_slot(input@.len(), 4095);
    }

    let mut buffer: Vec<u8> = Vec::new();
    std::mem::swap(&mut buffer, output);
    let mut encoder = Encoder { input, output: buffer, output_pos: 0, dict_bitshift, cur: 0, dict };
    let res = encoder.complete();
    *output = encoder.output;
    proof {
        let block = search::compressed(input@);
        laws::law_decoding_undoes_compression(input@);
        assert(output@.take(block.len() as int) =~= block);
    }
    res
}

/// Compress all bytes of `input`.
///
/// The block that is returned decodes to `input`.
pub fn compress(input: &[u8]) -> (vec: Vec<u8>)
    ensures
        vec@ == search::compressed(input@),
        block::decode(vec@) == Some(input@),
{
    // The compression expands the size by no more than this, if at all. More than a vector can hold
    // is not asked for.
    let capacity: usize = input.len().saturating_add(input.len() / 10).saturating_add(16);
    let mut vec: Vec<u8> = if capacity <= isize::MAX as usize {
        Vec::with_capacity(capacity)
    } else {
        Vec::new()
    };
    compress_into(input, &mut vec).unwrap();
    assert(vec@.take(vec@.len() as int) =~= vec@);
    vec
}

} // verus!
