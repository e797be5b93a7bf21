//! What holds of every block that the encoder writes.

use vstd::prelude::*;
use crate::block;
use crate::block::{MAX_DISTANCE, MINMATCH};
use crate::search;
use crate::search::{Duplicate, END_OFFSET, LZ4_MIN_LENGTH, MFLIMIT};
use crate::words;

verus! {

/// What every duplicate keeps to. It copies at least four bytes from an earlier position that 16
/// bits can address. It starts 12 or more bytes before the end of the input and leaves the last 5
/// bytes alone. All the bytes that it copies are those of the input.
pub open spec fn sound(input: Seq<u8>, duplicate: Duplicate) -> bool {
    &&& 0 <= duplicate.source < duplicate.at
    &&& duplicate.at - duplicate.source <= MAX_DISTANCE
    &&& duplicate.at + MFLIMIT <= input.len()
    &&& MINMATCH <= duplicate.len
    &&& duplicate.at + duplicate.len + END_OFFSET <= input.len()
    &&& forall|j: int|
        0 <= j < duplicate.len ==> input[#[trigger] (duplicate.at + j)] == input[duplicate.source
            + j]
}

/// Whether the duplicates in `list` are all sound, and none starts before `start` or before the
/// end of another one that comes earlier.
pub open spec fn sound_from(input: Seq<u8>, list: Seq<Duplicate>, start: int) -> bool
    decreases list.len(),
{
    list.len() > 0 ==> {
        &&& start <= list[0].at
        &&& sound(input, list[0])
        &&& sound_from(input, list.skip(1), list[0].at + list[0].len)
    }
}

/// A hit makes a sound duplicate.
proof fn lemma_hit_is_sound(input: Seq<u8>, at: int, source: int)
    requires
        0 <= source < at,
        at + MFLIMIT <= input.len(),
        search::usable(input, source, at),
    ensures
        sound(input, Duplicate { at, source, len: search::copy_length(input, at, source) }),
{
    let first = at + MINMATCH;
    let second = source + MINMATCH;
    let limit = search::match_limit(input, first);
    search::lemma_copy_length_bound(input, at, source);
    words::lemma_common_bytes_bound(input, first, second, limit);
    search::law_equal_batches_are_equal_bytes(input, at, source);
    let len = search::copy_length(input, at, source);
    assert forall|j: int| 0 <= j < len implies input[#[trigger] (at + j)] == input[source + j] by {
        if j < MINMATCH {
            assert(input.subrange(at, at + 4)[j] == input.subrange(source, source + 4)[j]);
        } else {
            let k = j - MINMATCH;
            assert(first + k == at + j);
        }
    }
}

/// A search finds only positions before the one where it finds them, if the dictionary holds only
/// such.
proof fn lemma_search_looks_back(
    input: Seq<u8>,
    bitshift: nat,
    dict: Seq<usize>,
    tried: nat,
    at: int,
)
    requires
        input.len() <= usize::MAX,
        bitshift == search::dictionary(input.len()).1,
        dict.len() == search::dictionary(input.len()).0,
        0 <= at,
        forall|i: int| 0 <= i < dict.len() ==> dict[i] < at,
    ensures
        ({
            let stop = search::search(input, bitshift, dict, tried, at);
            &&& stop.dict.len() == dict.len()
            &&& forall|i: int| 0 <= i < dict.len() ==> stop.dict[i] <= stop.at
            &&& stop.source matches Some(source) ==> 0 <= source < stop.at
        }),
    decreases search::remaining(input, at),
{
    let hash = search::slot(input, at, bitshift);
    search::law_every_position_has_a_slot(input, at);
    if at + MFLIMIT <= input.len() && !search::usable(input, dict[hash] as int, at) {
        let filled = dict.update(hash, at as usize);
        lemma_search_looks_back(input, bitshift, filled, tried + 1, at + (65 + tried) / 64);
    }
}

/// The copies from `at` on are sound, if the dictionary holds only positions before it.
pub proof fn lemma_duplicates_from_sound(
    input: Seq<u8>,
    bitshift: nat,
    dict: Seq<usize>,
    at: int,
    start: int,
)
    requires
        input.len() <= usize::MAX,
        bitshift == search::dictionary(input.len()).1,
        dict.len() == search::dictionary(input.len()).0,
        0 <= start <= at,
        forall|i: int| 0 <= i < dict.len() ==> dict[i] < at,
    ensures
        sound_from(input, search::duplicates_from(input, bitshift, dict, at), start),
    decreases search::remaining(input, at),
{
    search::lemma_search_bounds(input, bitshift, dict, 0, at);
    lemma_search_looks_back(input, bitshift, dict, 0, at);
    let stop = search::search(input, bitshift, dict, 0, at);
    if let Some(source) = stop.source {
        lemma_hit_is_sound(input, stop.at, source);
        let next = stop.at + search::copy_length(input, stop.at, source);
        lemma_duplicates_from_sound(input, bitshift, stop.dict, next, next);
        let rest = search::duplicates_from(input, bitshift, stop.dict, next);
        let all = search::duplicates_from(input, bitshift, dict, at);
        assert(all.skip(1) =~= rest);
    }
}

/// Copies that are sound from `start` on are each sound, start there or later, and are in order.
pub proof fn lemma_sound_from(input: Seq<u8>, list: Seq<Duplicate>, start: int)
    requires
        sound_from(input, list, start),
    ensures
        forall|i: int| 0 <= i < list.len() ==> sound(input, #[trigger] list[i]),
        forall|i: int| 0 <= i < list.len() ==> start <= (#[trigger] list[i]).at,
        forall|i: int, k: int|
            0 <= i < k < list.len() ==> (#[trigger] list[i]).at + list[i].len <= (#[trigger] list[k]).at,
    decreases list.len(),
{
    if list.len() > 0 {
        let rest = list.skip(1);
        lemma_sound_from(input, rest, list[0].at + list[0].len);
        assert forall|i: int| 0 <= i < list.len() implies sound(input, #[trigger] list[i]) && start
            <= list[i].at by {
            if i > 0 {
                assert(list[i] == rest[i - 1]);
            }
        }
        assert forall|i: int, k: int| 0 <= i < k < list.len() implies (#[trigger] list[i]).at
            + list[i].len <= (#[trigger] list[k]).at by {
            assert(list[k] == rest[k - 1]);
            if i > 0 {
                assert(list[i] == rest[i - 1]);
            }
        }
    }
}

/// The copies for a whole input are sound.
pub proof fn lemma_duplicates_sound(input: Seq<u8>)
    requires
        input.len() <= usize::MAX,
    ensures
        sound_from(input, search::duplicates(input), 0),
{
    if input.len() >= LZ4_MIN_LENGTH {
        let bitshift = search::dictionary(input.len()).1;
        lemma_duplicates_from_sound(input, bitshift, search::empty_dict(input), 1, 0);
    }
}

/// The duplicates that an input is cut into are sound, in order and apart.
pub proof fn law_duplicates_are_sound(input: Seq<u8>)
    requires
        input.len() <= usize::MAX,
    ensures
        forall|i: int|
            0 <= i < search::duplicates(input).len() ==> sound(
                input,
                #[trigger] search::duplicates(input)[i],
            ),
        forall|i: int, k: int|
            0 <= i < k < search::duplicates(input).len() ==> (#[trigger] search::duplicates(
                input,
            )[i]).at + search::duplicates(input)[i].len <= (#[trigger] search::duplicates(
                input,
            )[k]).at,
{
    lemma_duplicates_sound(input);
    lemma_sound_from(input, search::duplicates(input), 0);
}

/// Copying back leaves what was there and makes every byte after it equal to the one that stands
/// `offset` before it.
proof fn lemma_copy_back(out: Seq<u8>, offset: nat, n: nat)
    requires
        1 <= offset <= out.len(),
    ensures
        block::copy_back(out, offset, n).len() == out.len() + n,
        block::copy_back(out, offset, n).take(out.len() as int) == out,
        forall|i: int|
            out.len() <= i < out.len() + n ==> #[trigger] block::copy_back(out, offset, n)[i]
                == block::copy_back(out, offset, n)[i - offset],
    decreases n,
{
    let whole = block::copy_back(out, offset, n);
    if n == 0 {
        assert(whole.take(out.len() as int) =~= out);
    } else {
        let longer = out.push(out[out.len() - offset]);
        lemma_copy_back(longer, offset, (n - 1) as nat);
        assert(whole.take(longer.len() as int) == longer);
        assert forall|i: int| 0 <= i < longer.len() implies whole[i] == longer[i] by {
            assert(whole.take(longer.len() as int)[i] == longer[i]);
        }
        assert(whole.take(out.len() as int) =~= out);
    }
}

/// Bytes that follow those of the input before a sound duplicate, each equal to the one that stands
/// the duplicate's offset before it, are those of the input too.
proof fn lemma_copied_bytes(input: Seq<u8>, duplicate: Duplicate, copied: Seq<u8>, n: int)
    requires
        sound(input, duplicate),
        0 <= n <= duplicate.len,
        forall|i: int| 0 <= i < duplicate.at ==> copied[i] == input[i],
        forall|i: int|
            duplicate.at <= i < duplicate.at + duplicate.len ==> #[trigger] copied[i] == copied[i - (
            duplicate.at - duplicate.source)],
    ensures
        forall|i: int| 0 <= i < duplicate.at + n ==> copied[i] == input[i],
    decreases n,
{
    if n > 0 {
        lemma_copied_bytes(input, duplicate, copied, n - 1);
        let last = duplicate.at + (n - 1);
        assert(copied[last] == copied[duplicate.source + (n - 1)]);
    }
}

/// Copying a sound duplicate after the bytes before it gives the bytes up to its end.
proof fn lemma_copy_sound(input: Seq<u8>, duplicate: Duplicate)
    requires
        sound(input, duplicate),
    ensures
        block::copy_back(
            input.take(duplicate.at),
            (duplicate.at - duplicate.source) as nat,
            duplicate.len,
        ) == input.take(duplicate.at + duplicate.len),
{
    let at = duplicate.at;
    let offset = (at - duplicate.source) as nat;
    let copied = block::copy_back(input.take(at), offset, duplicate.len);
    lemma_copy_back(input.take(at), offset, duplicate.len);
    assert forall|i: int| 0 <= i < at implies copied[i] == input[i] by {
        assert(copied.take(at)[i] == input.take(at)[i]);
    }
    lemma_copied_bytes(input, duplicate, copied, duplicate.len as int);
    assert(copied =~= input.take(at + duplicate.len));
}

/// The part of a block from `start` on decodes to the rest of the input.
proof fn lemma_decode_block_from(input: Seq<u8>, list: Seq<Duplicate>, start: int)
    requires
        0 <= start <= input.len(),
        sound_from(input, list, start),
    ensures
        block::decode_after(search::block_from(input, list, start), input.take(start)) == Some(
            input,
        ),
    decreases list.len(),
{
    let out = input.take(start);
    if list.len() == 0 {
        block::law_last_literals_decode(input.skip(start), out);
        assert(out + input.skip(start) =~= input);
    } else {
        let duplicate = list[0];
        let lits = input.subrange(start, duplicate.at);
        let offset = (duplicate.at - duplicate.source) as nat;
        let next = duplicate.at + duplicate.len;
        let rest = search::block_from(input, list.skip(1), next);
        assert(out + lits =~= input.take(duplicate.at));
        block::law_sequence_decodes(lits, offset, (duplicate.len - MINMATCH) as nat, rest, out);
        lemma_copy_sound(input, duplicate);
        lemma_decode_block_from(input, list.skip(1), next);
    }
}

/// The block that an input is compressed to decodes to the input.
pub proof fn law_decoding_undoes_compression(input: Seq<u8>)
    requires
        input.len() <= usize::MAX,
    ensures
        block::decode(search::compressed(input)) == Some(input),
{
    lemma_duplicates_sound(input);
    lemma_decode_block_from(input, search::duplicates(input), 0);
    assert(input.take(0) =~= Seq::empty());
}

/// Different inputs are compressed to different blocks.
pub proof fn law_different_inputs_have_different_blocks(a: Seq<u8>, b: Seq<u8>)
    requires
        a.len() <= usize::MAX,
        b.len() <= usize::MAX,
        a != b,
    ensures
        search::compressed(a) != search::compressed(b),
{
    law_decoding_undoes_compression(a);
    law_decoding_undoes_compression(b);
}

/// An input too short to be searched becomes a token and its own bytes.
pub proof fn law_short_input_is_all_literals(input: Seq<u8>)
    requires
        input.len() < 13,
    ensures
        search::compressed(input) == seq![(16 * input.len()) as u8] + input,
{
    assert(search::compressed(input) =~= seq![(16 * input.len()) as u8] + input);
}

/// Compression adds two bytes and one for each whole 255 bytes of input, at the most. So the block
/// fits in the input's length, a tenth of it and 16 bytes, which is the room that is set aside.
pub proof fn law_block_length(input: Seq<u8>)
    requires
        input.len() <= usize::MAX,
    ensures
        search::compressed(input).len() <= input.len() + input.len() / 255 + 2,
        search::compressed(input).len() <= 16 + input.len() + input.len() / 10,
{
    lemma_duplicates_sound(input);
    lemma_block_from_length(input, search::duplicates(input), 0);
}

proof fn lemma_block_from_length(input: Seq<u8>, list: Seq<Duplicate>, start: int)
    requires
        0 <= start <= input.len(),
        sound_from(input, list, start),
    ensures
        search::block_from(input, list, start).len() <= (input.len() - start) + (input.len()
            - start) / 255 + 2,
    decreases list.len(),
{
    if list.len() > 0 {
        lemma_block_from_length(input, list.skip(1), list[0].at + list[0].len);
    }
}

} // verus!
