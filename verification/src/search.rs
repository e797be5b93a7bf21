//! Where the duplicates are: the greedy search that cuts an input into literals and copies.
//!
//! The search walks over the input with a dictionary of earlier positions, one to a slot. A
//! position's slot is the hash of the four bytes there, so that what the slot holds is a candidate
//! for an earlier copy of those bytes.

use vstd::prelude::*;
use crate::block;
use crate::block::{MAX_DISTANCE, MINMATCH};
use crate::words;

verus! {

/// After each 2 to this many positions without a match, the search takes longer steps.
pub const LZ4_SKIPTRIGGER: usize = 6;

/// No match starts in fewer than this many bytes before the end of the input.
pub const MFLIMIT: usize = 12;

/// Shorter inputs are not searched.
pub const LZ4_MIN_LENGTH: usize = MFLIMIT + 1;

/// The number of bits in a hash.
pub const LZ4_HASHLOG: u32 = 12;

/// The bytes at the end of the input that no match covers: they are always literals.
pub const END_OFFSET: usize = 5;

/// The value of the four bytes at `n`, in the byte order of the target.
pub open spec fn batch(input: Seq<u8>, n: int) -> nat {
    words::native_value(input, n, 4)
}

/// The hash of a batch: the upper 12 bits of its product with a prime near the golden ratio of
/// the 32-bit integers.
pub open spec fn batch_hash(sequence: nat) -> nat {
    (sequence * 2654435761) % 0x1_0000_0000 / 0x10_0000
}

/// The number of slots in the dictionary for an input of `len` bytes, and the number of bits by
/// which hashes are shifted to fit it.
pub open spec fn dictionary(len: nat) -> (nat, nat) {
    if len <= 500 {
        (128, 9)
    } else if len <= 1_000 {
        (256, 8)
    } else if len <= 4_000 {
        (512, 7)
    } else if len <= 8_000 {
        (1024, 6)
    } else if len <= 16_000 {
        (2048, 5)
    } else if len <= 100_000 {
        (4096, 4)
    } else if len <= 400_000 {
        (8192, 3)
    } else {
        (16384, 2)
    }
}

/// The slot of position `n`, where hashes are shifted by `bitshift`.
pub open spec fn slot(input: Seq<u8>, n: int, bitshift: nat) -> int {
    (batch_hash(batch(input, n)) / vstd::arithmetic::power2::pow2(bitshift)) as int
}

/// Whether the bytes at `at` can be copied from `source`: it is near enough, and the four bytes
/// there are the same, not merely of the same hash.
pub open spec fn usable(input: Seq<u8>, source: int, at: int) -> bool {
    at - source <= MAX_DISTANCE && batch(input, source) == batch(input, at)
}

/// How many bytes lie from `at` on.
pub open spec fn remaining(input: Seq<u8>, at: int) -> nat {
    if at <= input.len() {
        (input.len() - at) as nat
    } else {
        0
    }
}

/// Whether every position in the dictionary stands in its own slot. Slots that nothing was put
/// into hold 0.
pub open spec fn filed(input: Seq<u8>, bitshift: nat, dict: Seq<usize>) -> bool {
    forall|s: int|
        0 <= s < dict.len() ==> #[trigger] dict[s] == 0 || slot(input, dict[s] as int, bitshift)
            == s
}

/// Where a search stops.
pub struct Stop {
    /// The position that the search has reached.
    pub at: int,
    /// The earlier position that the bytes there can be copied from. If there is none, the end of
    /// the input is near.
    pub source: Option<int>,
    /// The dictionary as the search leaves it.
    pub dict: Seq<usize>,
}

/// The search from `at` on, when `tried` positions have been tried in vain. It stops at the first
/// position whose bytes can be copied, or where no match may start any more. Every position that is
/// tried takes the place of the candidate in its slot.
pub open spec fn search(
    input: Seq<u8>,
    bitshift: nat,
    dict: Seq<usize>,
    tried: nat,
    at: int,
) -> Stop
    decreases remaining(input, at),
{
    let hash = slot(input, at, bitshift);
    let filled = dict.update(hash, at as usize);
    if at > input.len() - MFLIMIT {
        Stop { at, source: None, dict }
    } else if usable(input, dict[hash] as int, at) {
        Stop { at, source: Some(dict[hash] as int), dict: filled }
    } else {
        search(input, bitshift, filled, tried + 1, at + (65 + tried) / 64)
    }
}

/// The position `at` as a cursor: the largest one there is, if `at` lies beyond it.
pub open spec fn cursor_at(at: int) -> int {
    if at <= usize::MAX {
        at
    } else {
        usize::MAX as int
    }
}

/// The most bytes that are compared for a cursor at `cur`: as many as end more than `END_OFFSET`
/// before the end of the input, counted from the cursor.
pub open spec fn compare_limit(input: Seq<u8>, cur: int) -> nat {
    if cur + END_OFFSET + 1 < input.len() {
        (input.len() - END_OFFSET - 1 - cur) as nat
    } else {
        0
    }
}

/// How many bytes are compared where `limit` may be: whole machine words, and then one block of
/// four or two bytes, or one byte, whichever is the largest that fits.
pub open spec fn compared_bytes(limit: nat) -> nat {
    let left = limit % words::word_bytes();
    let last: nat = if left >= 4 {
        4
    } else if left >= 2 {
        2
    } else {
        left
    };
    (limit - left + last) as nat
}

/// The most bytes from `first` on that a match may cover, so that the last bytes of the input are
/// literals.
pub open spec fn match_limit(input: Seq<u8>, first: int) -> nat {
    if first + END_OFFSET <= input.len() {
        (input.len() - END_OFFSET - first) as nat
    } else {
        0
    }
}

/// How many bytes are copied for a hit at `at`: four, and as many more as agree.
pub open spec fn copy_length(input: Seq<u8>, at: int, source: int) -> nat {
    let first = at + MINMATCH;
    let second = source + MINMATCH;
    MINMATCH as nat + words::common_bytes(input, first, second, match_limit(input, first))
}

/// A copy that the search settles on: `len` bytes at `at`, taken from `source`.
pub struct Duplicate {
    pub at: int,
    pub source: int,
    pub len: nat,
}

/// The copies from `at` on. Each search starts where the last copy ended.
pub open spec fn duplicates_from(
    input: Seq<u8>,
    bitshift: nat,
    dict: Seq<usize>,
    at: int,
) -> Seq<Duplicate>
    decreases remaining(input, at),
{
    let stop = search(input, bitshift, dict, 0, at);
    match stop.source {
        None => Seq::empty(),
        Some(source) => {
            proof {
                lemma_search_bounds(input, bitshift, dict, 0, at);
                lemma_copy_length_bound(input, stop.at, source);
            }
            let len = copy_length(input, stop.at, source);
            seq![Duplicate { at: stop.at, source, len }] + duplicates_from(
                input,
                bitshift,
                stop.dict,
                stop.at + len,
            )
        },
    }
}

/// Where the last of the searches from `at` on stops: the one that finds no more copies.
pub open spec fn last_stop_from(input: Seq<u8>, bitshift: nat, dict: Seq<usize>, at: int) -> Stop
    decreases remaining(input, at),
{
    let stop = search(input, bitshift, dict, 0, at);
    match stop.source {
        None => stop,
        Some(source) => {
            proof {
                lemma_search_bounds(input, bitshift, dict, 0, at);
                lemma_copy_length_bound(input, stop.at, source);
            }
            let next = stop.at + copy_length(input, stop.at, source);
            last_stop_from(input, bitshift, stop.dict, next)
        },
    }
}

/// The dictionary that the search of `input` starts with: every slot holds position 0.
pub open spec fn empty_dict(input: Seq<u8>) -> Seq<usize> {
    Seq::new(dictionary(input.len()).0, |i: int| 0usize)
}

/// The copies that stand for the duplicates in `input`.
pub open spec fn duplicates(input: Seq<u8>) -> Seq<Duplicate> {
    if input.len() < LZ4_MIN_LENGTH {
        Seq::empty()
    } else {
        let bitshift = dictionary(input.len()).1;
        duplicates_from(input, bitshift, empty_dict(input), 1)
    }
}

/// Where the last search of `input` stops. An input that is too short is not searched at all: the
/// cursor and the dictionary stay as they are.
pub open spec fn last_stop(input: Seq<u8>) -> Stop {
    if input.len() < LZ4_MIN_LENGTH {
        Stop { at: 0, source: None, dict: empty_dict(input) }
    } else {
        last_stop_from(input, dictionary(input.len()).1, empty_dict(input), 1)
    }
}

/// The sequence that stands for the literals from `start` to `at` and the copy for a hit at `at`.
pub open spec fn sequence_for(input: Seq<u8>, start: int, at: int, source: int) -> Seq<u8> {
    block::sequence(
        input.subrange(start, at),
        (at - source) as nat,
        (copy_length(input, at, source) - MINMATCH) as nat,
    )
}

/// The part of a block that stands for `input` from `start` on, cut by `list`.
pub open spec fn block_from(input: Seq<u8>, list: Seq<Duplicate>, start: int) -> Seq<u8>
    decreases list.len(),
{
    if list.len() == 0 {
        block::literals(input.skip(start), 0)
    } else {
        let copy = list[0];
        block::sequence(
            input.subrange(start, copy.at),
            (copy.at - copy.source) as nat,
            (copy.len - MINMATCH) as nat,
        ) + block_from(input, list.skip(1), copy.at + copy.len)
    }
}

/// The block that `input` is compressed to.
///
/// Which positions share a slot depends on the byte order of the target, and so may the copies in
/// the block. What the block decodes to does not.
pub open spec fn compressed(input: Seq<u8>) -> Seq<u8> {
    block_from(input, duplicates(input), 0)
}

/// A search stops at or after where it began. What it finds lies far enough from the end of the
/// input, and it finds nothing only where the end is near.
pub proof fn lemma_search_bounds(
    input: Seq<u8>,
    bitshift: nat,
    dict: Seq<usize>,
    tried: nat,
    at: int,
)
    ensures
        ({
            let stop = search(input, bitshift, dict, tried, at);
            &&& at <= stop.at
            &&& match stop.source {
                None => stop.at > input.len() - MFLIMIT,
                Some(source) => stop.at <= input.len() - MFLIMIT && usable(input, source, stop.at),
            }
        }),
    decreases remaining(input, at),
{
    let hash = slot(input, at, bitshift);
    if at <= input.len() - MFLIMIT && !usable(input, dict[hash] as int, at) {
        let filled = dict.update(hash, at as usize);
        lemma_search_bounds(input, bitshift, filled, tried + 1, at + (65 + tried) / 64);
    }
}

/// A copy leaves the last bytes of the input alone.
pub proof fn lemma_copy_length_bound(input: Seq<u8>, at: int, source: int)
    requires
        at + MFLIMIT <= input.len(),
    ensures
        at + copy_length(input, at, source) + END_OFFSET <= input.len(),
{
    let first = at + MINMATCH;
    words::lemma_common_bytes_bound(
        input,
        first,
        source + MINMATCH,
        match_limit(input, first),
    );
}

/// The part of a block from `start` on that the search from `at` on leads to.
#[verifier::opaque]
pub open spec fn rest_of_block(
    input: Seq<u8>,
    bitshift: nat,
    dict: Seq<usize>,
    at: int,
    start: int,
) -> Seq<u8> {
    block_from(input, duplicates_from(input, bitshift, dict, at), start)
}

/// One search cuts one sequence off the front of what is left, or leaves it all to the last
/// literals.
pub proof fn lemma_block_step(
    input: Seq<u8>,
    bitshift: nat,
    dict: Seq<usize>,
    at: int,
    start: int,
)
    ensures
        ({
            let whole = rest_of_block(input, bitshift, dict, at, start);
            let stop = search(input, bitshift, dict, 0, at);
            match stop.source {
                None => whole == block::literals(input.skip(start), 0),
                Some(source) => {
                    let next = stop.at + copy_length(input, stop.at, source);
                    whole == sequence_for(input, start, stop.at, source) + rest_of_block(
                        input,
                        bitshift,
                        stop.dict,
                        next,
                        next,
                    )
                },
            }
        }),
{
    reveal(rest_of_block);
    let stop = search(input, bitshift, dict, 0, at);
    if let Some(source) = stop.source {
        let len = copy_length(input, stop.at, source);
        let rest = duplicates_from(input, bitshift, stop.dict, stop.at + len);
        assert((seq![Duplicate { at: stop.at, source, len }] + rest).skip(1) =~= rest);
    }
}

/// All but the last few of the bytes that may be compared are compared.
pub proof fn lemma_compared_bytes_bound(limit: nat)
    ensures
        compared_bytes(limit) <= limit <= compared_bytes(limit) + 3,
{
    if words::word_bytes() == 8 {
        assert(limit % 8 < 8);
    } else {
        assert(limit % 4 < 4);
    }
}

/// What counting the bytes that agree comes to for a cursor at `cur`: those that are counted agree, none
/// lies in the last six bytes as seen from the cursor, and counting stops only where bytes differ or
/// where three more at the most could have been counted.
pub proof fn lemma_counted_bytes(input: Seq<u8>, cur: int, first: int, second: int)
    ensures
        ({
            let count = words::common_bytes(
                input,
                first,
                second,
                compared_bytes(compare_limit(input, cur)),
            );
            &&& forall|j: int|
                0 <= j < count ==> input[#[trigger] (first + j)] == input[second + j]
            &&& count > 0 ==> cur + count + 6 <= input.len()
            &&& cur + count + 9 < input.len() ==> input[first + count] != input[second + count]
        }),
{
    let limit = compare_limit(input, cur);
    lemma_compared_bytes_bound(limit);
    words::lemma_common_bytes_bound(input, first, second, compared_bytes(limit));
    words::lemma_common_bytes_end(input, first, second, compared_bytes(limit));
}

/// What is left of `limit` behind whole words tells how many more bytes are compared.
pub proof fn lemma_compared_bytes_rest(limit: nat, pos: nat)
    requires
        pos <= limit < pos + words::word_bytes(),
        pos % words::word_bytes() == 0,
    ensures
        limit - pos >= 4 ==> compared_bytes(limit) == pos + 4,
        2 <= limit - pos < 4 ==> compared_bytes(limit) == pos + 2,
        limit - pos < 2 ==> compared_bytes(limit) == limit,
{
    if words::word_bytes() == 8 {
        assert(pos % 8 == 0 && limit % 8 == limit - pos);
    } else {
        assert(pos % 4 == 0 && limit % 4 == limit - pos);
    }
}

/// Every whole word that may be compared is compared.
pub proof fn lemma_compared_bytes_words(limit: nat, pos: nat)
    requires
        pos <= limit,
        pos % words::word_bytes() == 0,
    ensures
        pos <= compared_bytes(limit),
{
    if words::word_bytes() == 8 {
        assert(pos % 8 == 0 && pos <= limit - limit % 8);
    } else {
        assert(pos % 4 == 0 && pos <= limit - limit % 4);
    }
}

/// Every hash, shifted to fit the dictionary for an input of `len` bytes, has a slot in it.
pub proof fn law_every_hash_has_a_slot(len: nat, hash: nat)
    requires
        hash < 4096,
    ensures
        0 <= hash / vstd::arithmetic::power2::pow2(dictionary(len).1) < dictionary(len).0,
{
    vstd::arithmetic::power2::lemma2_to64();
    assert(hash / 512 < 128 && hash / 256 < 256 && hash / 128 < 512 && hash / 64 < 1024 && hash / 32
        < 2048 && hash / 16 < 4096 && hash / 8 < 8192 && hash / 4 < 16384);
}

/// The hash of a 32-bit integer is the upper 12 bits of a product.
pub proof fn law_hash_is_upper_bits(sequence: nat)
    ensures
        batch_hash(sequence) < 4096,
        batch_hash(sequence) * 0x10_0000 <= (sequence * 2654435761) % 0x1_0000_0000 < (batch_hash(
            sequence,
        ) + 1) * 0x10_0000,
{
}

/// Hashes spread evenly over all 32-bit integers. Multiplying by 244002641 undoes the product that
/// they are taken from, so each hash is that of the 2^20 integers that come of the values `v` with
/// that hash in their upper bits, and of no others.
pub proof fn law_hashes_spread_evenly(v: nat, u: nat)
    requires
        v < 0x1_0000_0000,
        u < 0x1_0000_0000,
    ensures
        batch_hash((v * 244002641) % 0x1_0000_0000) == v / 0x10_0000,
        v != u ==> (v * 244002641) % 0x1_0000_0000 != (u * 244002641) % 0x1_0000_0000,
{
    lemma_product_undone(v);
    lemma_product_undone(u);
}

proof fn lemma_product_undone(v: nat)
    requires
        v < 0x1_0000_0000,
    ensures
        ((v * 244002641) % 0x1_0000_0000 * 2654435761) % 0x1_0000_0000 == v,
{
    let m: int = 0x1_0000_0000;
    vstd::arithmetic::div_mod::lemma_mul_mod_noop_left((v * 244002641) as int, 2654435761, m);
    assert(v * 244002641 * 2654435761 == v + m * (v * 150801925)) by (nonlinear_arith)
        requires
            m == 0x1_0000_0000,
    ;
    vstd::arithmetic::div_mod::lemma_mod_multiples_vanish((v * 150801925) as int, v as int, m);
    vstd::arithmetic::div_mod::lemma_small_mod(v, m as nat);
}

/// The slot of a position is made of the upper bits of the hash of the four bytes there.
pub proof fn law_slot_is_upper_bits(input: Seq<u8>, n: int, bitshift: nat)
    ensures
        ({
            let product = (batch(input, n) * 2654435761) % 0x1_0000_0000;
            let unit = vstd::arithmetic::power2::pow2(bitshift);
            slot(input, n, bitshift) * unit <= product / 0x10_0000 < (slot(input, n, bitshift) + 1)
                * unit
        }),
{
    let product = (batch(input, n) * 2654435761) % 0x1_0000_0000;
    let unit = vstd::arithmetic::power2::pow2(bitshift);
    vstd::arithmetic::power2::lemma_pow2_pos(bitshift);
    let hash = (product / 0x10_0000) as int;
    let s = slot(input, n, bitshift);
    vstd::arithmetic::div_mod::lemma_fundamental_div_mod(hash, unit as int);
    vstd::arithmetic::div_mod::lemma_mod_bound(hash, unit as int);
    assert(s * unit <= hash < (s + 1) * unit) by (nonlinear_arith)
        requires
            hash == unit * s + hash % (unit as int),
            0 <= hash % (unit as int) < unit,
    ;
}

/// The dictionary tells hashes apart. Sixteen slots stand for each value that a hash can still take
/// when it has been shifted, of which there are never fewer than 8. A longer input is never given
/// fewer slots or a larger shift, and one of more than 400000 bytes is given the most.
pub proof fn law_dictionary_tells_hashes_apart(len: nat, longer: nat)
    requires
        len <= longer,
    ensures
        dictionary(len).0 * vstd::arithmetic::power2::pow2(dictionary(len).1) == 0x1_0000,
        2 <= dictionary(len).1 <= 9,
        dictionary(len).0 <= dictionary(longer).0,
        dictionary(len).1 >= dictionary(longer).1,
        len > 400_000 ==> dictionary(len).1 == 2,
{
    vstd::arithmetic::power2::lemma2_to64();
}

/// Each of seven lengths, once it is passed, doubles the slots and takes one bit off the shift.
pub proof fn law_dictionary_doubles(len: nat)
    ensures
        dictionary(len).1 < 9 <==> len > 500,
        dictionary(len).1 < 8 <==> len > 1_000,
        dictionary(len).1 < 7 <==> len > 4_000,
        dictionary(len).1 < 6 <==> len > 8_000,
        dictionary(len).1 < 5 <==> len > 16_000,
        dictionary(len).1 < 4 <==> len > 100_000,
        dictionary(len).1 < 3 <==> len > 400_000,
        dictionary(len).0 == 128 * vstd::arithmetic::power2::pow2((9 - dictionary(len).1) as nat),
{
    vstd::arithmetic::power2::lemma2_to64();
}

/// Every position of an input has a slot in the dictionary for it.
pub proof fn law_every_position_has_a_slot(input: Seq<u8>, n: int)
    ensures
        0 <= slot(input, n, dictionary(input.len()).1) < dictionary(input.len()).0,
{
    law_every_hash_has_a_slot(input.len(), batch_hash(batch(input, n)));
}

/// Two batches have the same value exactly when their four bytes are the same.
pub proof fn law_equal_batches_are_equal_bytes(input: Seq<u8>, a: int, b: int)
    requires
        0 <= a,
        a + 4 <= input.len(),
        0 <= b,
        b + 4 <= input.len(),
    ensures
        batch(input, a) == batch(input, b) <==> input.subrange(a, a + 4) == input.subrange(b, b + 4),
{
    let left = input.subrange(a, a + 4);
    let right = input.subrange(b, b + 4);
    words::lemma_equal_words(input, a, b, 4);
    words::lemma_common_bytes_bound(input, a, b, 4);
    if batch(input, a) == batch(input, b) {
        assert forall|j: int| 0 <= j < 4 implies left[j] == right[j] by {
            assert(input[a + j] == input[b + j]);
        }
        assert(left =~= right);
    }
    if left == right {
        assert(left[0] == right[0] && left[1] == right[1] && left[2] == right[2] && left[3]
            == right[3]);
        reveal_with_fuel(words::common_bytes, 5);
    }
}

/// A search leaves every position in its own slot, if it finds them so.
pub proof fn law_search_keeps_positions_filed(
    input: Seq<u8>,
    bitshift: nat,
    dict: Seq<usize>,
    tried: nat,
    at: int,
)
    requires
        input.len() <= usize::MAX,
        bitshift == dictionary(input.len()).1,
        dict.len() == dictionary(input.len()).0,
        0 <= at,
        filed(input, bitshift, dict),
    ensures
        search(input, bitshift, dict, tried, at).dict.len() == dict.len(),
        filed(input, bitshift, search(input, bitshift, dict, tried, at).dict),
    decreases remaining(input, at),
{
    let hash = slot(input, at, bitshift);
    law_every_position_has_a_slot(input, at);
    if at <= input.len() - MFLIMIT {
        lemma_filing_one(input, bitshift, dict, at);
        if !usable(input, dict[hash] as int, at) {
            let filled = dict.update(hash, at as usize);
            law_search_keeps_positions_filed(
                input,
                bitshift,
                filled,
                tried + 1,
                at + (65 + tried) / 64,
            );
        }
    }
}

/// Searches from `at` on, one after another, leave every position in its own slot.
proof fn lemma_searches_keep_positions_filed(
    input: Seq<u8>,
    bitshift: nat,
    dict: Seq<usize>,
    at: int,
)
    requires
        input.len() <= usize::MAX,
        bitshift == dictionary(input.len()).1,
        dict.len() == dictionary(input.len()).0,
        0 <= at,
        filed(input, bitshift, dict),
    ensures
        filed(input, bitshift, last_stop_from(input, bitshift, dict, at).dict),
    decreases remaining(input, at),
{
    law_search_keeps_positions_filed(input, bitshift, dict, 0, at);
    lemma_search_bounds(input, bitshift, dict, 0, at);
    let stop = search(input, bitshift, dict, 0, at);
    if let Some(source) = stop.source {
        lemma_copy_length_bound(input, stop.at, source);
        let next = stop.at + copy_length(input, stop.at, source);
        lemma_searches_keep_positions_filed(input, bitshift, stop.dict, next);
    }
}

/// When an input has been compressed, every position in the dictionary stands in its own slot.
pub proof fn law_last_dictionary_is_filed(input: Seq<u8>)
    requires
        input.len() <= usize::MAX,
    ensures
        filed(input, dictionary(input.len()).1, last_stop(input).dict),
{
    let bitshift = dictionary(input.len()).1;
    if input.len() >= LZ4_MIN_LENGTH {
        lemma_searches_keep_positions_filed(input, bitshift, empty_dict(input), 1);
    }
}

/// Putting a position into its slot keeps all positions in theirs.
pub proof fn lemma_filing_one(input: Seq<u8>, bitshift: nat, dict: Seq<usize>, at: int)
    requires
        0 <= at <= usize::MAX,
        0 <= slot(input, at, bitshift) < dict.len(),
        filed(input, bitshift, dict),
    ensures
        filed(input, bitshift, dict.update(slot(input, at, bitshift), at as usize)),
{
    let hash = slot(input, at, bitshift);
    let filled = dict.update(hash, at as usize);
    assert forall|s: int| 0 <= s < filled.len() implies #[trigger] filled[s] == 0 || slot(
        input,
        filled[s] as int,
        bitshift,
    ) == s by {
        if s != hash {
            assert(filled[s] == dict[s]);
        }
    }
}

} // verus!
