//! How short the block is for inputs that repeat themselves.

use vstd::prelude::*;
use crate::block;
use crate::search;
use crate::search::Duplicate;
use crate::trace;
use crate::words;

verus! {

/// Runs that agree throughout are counted to the full.
proof fn lemma_all_common(input: Seq<u8>, first: int, second: int, limit: nat)
    requires
        forall|j: int| 0 <= j < limit ==> input[#[trigger] (first + j)] == input[second + j],
    ensures
        words::common_bytes(input, first, second, limit) == limit,
    decreases limit,
{
    if limit > 0 {
        assert(input[first + 0] == input[second + 0]);
        assert forall|j: int| 0 <= j < limit - 1 implies input[#[trigger] (first + 1 + j)]
            == input[second + 1 + j] by {
            assert(input[first + (1 + j)] == input[second + (1 + j)]);
        }
        lemma_all_common(input, first + 1, second + 1, (limit - 1) as nat);
    }
}

/// A copy of bytes that agree as far as they may be copied leaves five bytes.
proof fn lemma_copy_to_the_end(input: Seq<u8>, at: int, source: int)
    requires
        at + 12 <= input.len(),
        forall|i: int| at <= i < input.len() ==> #[trigger] input[i] == input[i - (at - source)],
    ensures
        search::copy_length(input, at, source) == input.len() - 5 - at,
{
    let first = at + 4;
    let second = source + 4;
    let limit = search::match_limit(input, first);
    assert forall|j: int| 0 <= j < limit implies input[#[trigger] (first + j)] == input[second
        + j] by {
        assert(input[first + j] == input[first + j - (at - source)]);
    }
    lemma_all_common(input, first, second, limit);
}

/// Where four bytes are the same, the position is usable if it is near enough, and the slot is the same.
proof fn lemma_same_bytes(input: Seq<u8>, bitshift: nat, x: int, y: int)
    requires
        0 <= x,
        x + 4 <= input.len(),
        0 <= y,
        y + 4 <= input.len(),
        input[x] == input[y],
        input[x + 1] == input[y + 1],
        input[x + 2] == input[y + 2],
        input[x + 3] == input[y + 3],
    ensures
        search::slot(input, x, bitshift) == search::slot(input, y, bitshift),
        y - x <= 65535 ==> search::usable(input, x, y),
{
    assert(input.subrange(x, x + 4) =~= input.subrange(y, y + 4));
    search::law_equal_batches_are_equal_bytes(input, x, y);
}

/// In an input of period `p` the first search goes on to `p`, if the slots of a period all differ.
proof fn lemma_period_found(input: Seq<u8>, bitshift: nat, dict: Seq<usize>, k: nat, p: int)
    requires
        bitshift == search::dictionary(input.len()).1,
        dict.len() == search::dictionary(input.len()).0,
        1 + k <= p <= 64,
        p + 12 <= input.len() <= usize::MAX,
        forall|i: int| p <= i < input.len() ==> #[trigger] input[i] == input[i - p],
        forall|i: int, j: int|
            0 <= i < j < p ==> #[trigger] search::slot(input, i, bitshift)
                != #[trigger] search::slot(input, j, bitshift),
        forall|s: int|
            0 <= s < dict.len() ==> #[trigger] dict[s] == 0 || 1 <= dict[s] <= k && search::slot(
                input,
                dict[s] as int,
                bitshift,
            ) == s,
    ensures
        ({
            let stop = search::search(input, bitshift, dict, k, 1 + k as int);
            stop.at == p && stop.source == Some(0int)
        }),
    decreases p - k,
{
    let at = 1 + k as int;
    let s = search::slot(input, at, bitshift);
    search::law_every_position_has_a_slot(input, at);
    if at == p {
        assert(input[p] == input[p - p] && input[p + 1] == input[p + 1 - p] && input[p + 2]
            == input[p + 2 - p] && input[p + 3] == input[p + 3 - p]);
        lemma_same_bytes(input, bitshift, 0, p);
        assert(dict[s] == 0);
    } else {
        assert(dict[s] == 0);
        assert(!search::usable(input, 0, at)) by {
            assert(search::slot(input, 0, bitshift) != s);
        }
        lemma_period_found(input, bitshift, dict.update(s, at as usize), k + 1, p);
    }
}

/// The bytes of a sequence with `l` literals and a copy of `m` bytes.
spec fn sequence_size(l: nat, m: nat) -> nat {
    3 + l + block::extension(l).len() + block::extension((m - 4) as nat).len()
}

/// A block grows by a sequence for each copy in its list.
proof fn lemma_block_size(input: Seq<u8>, list: Seq<Duplicate>, start: int)
    requires
        0 <= start <= input.len(),
    ensures
        list.len() == 0 ==> search::block_from(input, list, start).len() == 1 + block::extension(
            (input.len() - start) as nat,
        ).len() + (input.len() - start),
        list.len() > 0 && start <= list[0].at <= input.len() && list[0].len >= 4
            ==> search::block_from(input, list, start).len() == sequence_size(
            (list[0].at - start) as nat,
            list[0].len,
        ) + search::block_from(input, list.skip(1), list[0].at + list[0].len).len(),
{
}

/// An input that repeats itself every `p` bytes becomes its first `p` bytes and one copy of nearly all
/// the rest, whatever its length, if the four bytes at the positions of a period have different slots.
pub proof fn law_period_becomes_one_copy(input: Seq<u8>, p: int)
    requires
        1 <= p <= 64,
        p + 12 <= input.len() <= usize::MAX,
        forall|i: int| p <= i < input.len() ==> #[trigger] input[i] == input[i - p],
        forall|i: int, j: int|
            0 <= i < j < p ==> #[trigger] search::slot(
                input,
                i,
                search::dictionary(input.len()).1,
            ) != #[trigger] search::slot(input, j, search::dictionary(input.len()).1),
    ensures
        trace::copies(search::compressed(input)) == seq![
            Duplicate { at: p, source: 0, len: (input.len() - 5 - p) as nat },
        ],
        search::compressed(input).len() <= p + input.len() / 255 + 11,
{
    let bitshift = search::dictionary(input.len()).1;
    let dict = search::empty_dict(input);
    let list = search::duplicates(input);
    let copy = Duplicate { at: p, source: 0, len: (input.len() - 5 - p) as nat };
    lemma_period_found(input, bitshift, dict, 0, p);
    lemma_copy_to_the_end(input, p, 0);
    assert(list =~= seq![copy]) by {
        let stop = search::search(input, bitshift, dict, 0, 1);
        assert(search::duplicates_from(input, bitshift, stop.dict, input.len() - 5)
            =~= Seq::empty());
    }
    trace::law_copies_are_the_duplicates(input);
    lemma_block_size(input, list, 0);
    lemma_block_size(input, list.skip(1), input.len() - 5);
}

/// An input of equal bytes becomes one byte and one copy of nearly all the rest, whatever its length.
pub proof fn law_run_becomes_one_copy(input: Seq<u8>)
    requires
        13 <= input.len() <= usize::MAX,
        forall|i: int| 1 <= i < input.len() ==> #[trigger] input[i] == input[i - 1],
    ensures
        trace::copies(search::compressed(input)) == seq![
            Duplicate { at: 1, source: 0, len: (input.len() - 6) as nat },
        ],
        search::compressed(input).len() <= input.len() / 255 + 12,
{
    law_period_becomes_one_copy(input, 1);
}

/// Whether all bytes from `p` on are equal.
spec fn run_from(input: Seq<u8>, p: int) -> bool {
    forall|i: int| p <= i < input.len() ==> #[trigger] input[i] == input[p]
}

/// The length of the part of a block that the search from `from` on leads to.
spec fn size_from(
    input: Seq<u8>,
    bitshift: nat,
    dict: Seq<usize>,
    from: int,
    start: int,
) -> nat {
    search::block_from(input, search::duplicates_from(input, bitshift, dict, from), start).len()
}

/// What one search adds to the length of a block.
proof fn lemma_size_step(
    input: Seq<u8>,
    bitshift: nat,
    dict: Seq<usize>,
    from: int,
    start: int,
)
    requires
        0 <= start <= from,
        start <= input.len(),
    ensures
        ({
            let stop = search::search(input, bitshift, dict, 0, from);
            match stop.source {
                None => size_from(input, bitshift, dict, from, start) == 1 + block::extension(
                    (input.len() - start) as nat,
                ).len() + (input.len() - start),
                Some(source) => {
                    let len = search::copy_length(input, stop.at, source);
                    let next = stop.at + len;
                    &&& len >= 4
                    &&& from <= stop.at
                    &&& next + 5 <= input.len()
                    &&& size_from(input, bitshift, dict, from, start) == sequence_size(
                        (stop.at - start) as nat,
                        len,
                    ) + size_from(input, bitshift, stop.dict, next, next)
                },
            }
        }),
{
    let stop = search::search(input, bitshift, dict, 0, from);
    let list = search::duplicates_from(input, bitshift, dict, from);
    search::lemma_search_bounds(input, bitshift, dict, 0, from);
    lemma_block_size(input, list, start);
    if let Some(source) = stop.source {
        let next = stop.at + search::copy_length(input, stop.at, source);
        search::lemma_copy_length_bound(input, stop.at, source);
        assert(list.skip(1) =~= search::duplicates_from(input, bitshift, stop.dict, next));
    }
}

/// What a length takes beyond the token is less than a byte for each 255, and one more.
proof fn lemma_extension_size(n: nat)
    ensures
        block::extension(n).len() <= n / 255 + 1,
        n < 15 ==> block::extension(n).len() == 0,
{
}

/// All positions in a run have the same slot, and can be copied from one another.
proof fn lemma_run_position(input: Seq<u8>, bitshift: nat, p: int, x: int, y: int)
    requires
        run_from(input, p),
        0 <= p <= x,
        x + 4 <= input.len(),
        p <= y,
        y + 4 <= input.len(),
    ensures
        search::slot(input, x, bitshift) == search::slot(input, y, bitshift),
        y - x <= 65535 ==> search::usable(input, x, y),
{
    lemma_same_bytes(input, bitshift, x, y);
}

/// A position in a run is copied from an earlier one in it, to the end.
proof fn lemma_run_copied(input: Seq<u8>, p: int, at: int, source: int)
    requires
        run_from(input, p),
        0 <= p <= source < at,
        at + 12 <= input.len(),
    ensures
        search::copy_length(input, at, source) == input.len() - 5 - at,
{
    assert forall|i: int| at <= i < input.len() implies #[trigger] input[i] == input[i - (at
        - source)] by {
        assert(input[i] == input[p] && input[i - (at - source)] == input[p]);
    }
    lemma_copy_to_the_end(input, at, source);
}

/// A search at a position of a run, when its slot holds an earlier one that is near.
proof fn lemma_run_found(
    input: Seq<u8>,
    bitshift: nat,
    dict: Seq<usize>,
    k: nat,
    at: int,
    p: int,
)
    requires
        bitshift == search::dictionary(input.len()).1,
        dict.len() == search::dictionary(input.len()).0,
        run_from(input, p),
        0 <= p,
        at + 12 <= input.len() <= usize::MAX,
        p <= dict[search::slot(input, p, bitshift)] < at <= dict[search::slot(input, p, bitshift)]
            + 65535,
    ensures
        ({
            let stop = search::search(input, bitshift, dict, k, at);
            stop.at == at && stop.source == Some(
                dict[search::slot(input, p, bitshift)] as int,
            )
        }),
{
    lemma_run_position(input, bitshift, p, p, at);
    lemma_run_position(
        input,
        bitshift,
        p,
        dict[search::slot(input, p, bitshift)] as int,
        at,
    );
}

/// If a position of a run cannot be copied, the next one that is tried can be copied from it.
proof fn lemma_run_found_next(
    input: Seq<u8>,
    bitshift: nat,
    dict: Seq<usize>,
    k: nat,
    at: int,
    p: int,
)
    requires
        bitshift == search::dictionary(input.len()).1,
        dict.len() == search::dictionary(input.len()).0,
        run_from(input, p),
        0 <= p <= at,
        at + 12 <= input.len() <= usize::MAX,
        (65 + k) / 64 <= 65535,
        !search::usable(input, dict[search::slot(input, at, bitshift)] as int, at),
    ensures
        ({
            let stop = search::search(input, bitshift, dict, k, at);
            &&& stop.at == at + (65 + k) / 64
            &&& stop.source == if stop.at + 12 <= input.len() {
                Some(at)
            } else {
                None
            }
        }),
{
    let s = search::slot(input, at, bitshift);
    let filled = dict.update(s, at as usize);
    search::law_every_position_has_a_slot(input, at);
    lemma_run_position(input, bitshift, p, p, at);
    if at + (65 + k) / 64 + 12 <= input.len() {
        lemma_run_found(input, bitshift, filled, k + 1, at + (65 + k) / 64, p);
    }
}

/// Behind the start of a run, a position that cannot be copied costs no more than a literal.
proof fn lemma_run_size_next(
    input: Seq<u8>,
    bitshift: nat,
    dict: Seq<usize>,
    at: int,
    p: int,
)
    requires
        bitshift == search::dictionary(input.len()).1,
        dict.len() == search::dictionary(input.len()).0,
        run_from(input, p),
        0 <= p <= at,
        at + 12 <= input.len() <= usize::MAX,
        !search::usable(input, dict[search::slot(input, at, bitshift)] as int, at),
    ensures
        size_from(input, bitshift, dict, at, at) <= (input.len() - at) / 255 + 13,
{
    let n = input.len() as int;
    let stop = search::search(input, bitshift, dict, 0, at);
    lemma_run_found_next(input, bitshift, dict, 0, at, p);
    lemma_size_step(input, bitshift, dict, at, at);
    if stop.source is Some {
        lemma_run_copied(input, p, at + 1, at);
        lemma_size_step(input, bitshift, stop.dict, n - 5, n - 5);
        lemma_extension_size((n - 5 - at - 1 - 4) as nat);
    }
}

/// What is left of a run costs next to nothing, once one of its positions has been tried.
proof fn lemma_run_size_known(
    input: Seq<u8>,
    bitshift: nat,
    dict: Seq<usize>,
    at: int,
    p: int,
)
    requires
        bitshift == search::dictionary(input.len()).1,
        dict.len() == search::dictionary(input.len()).0,
        run_from(input, p),
        0 <= p,
        at <= input.len() <= usize::MAX,
        p + 4 <= input.len(),
        p <= dict[search::slot(input, p, bitshift)] < at,
    ensures
        size_from(input, bitshift, dict, at, at) <= (input.len() - at) / 255 + 13,
{
    let n = input.len() as int;
    let stop = search::search(input, bitshift, dict, 0, at);
    let y = dict[search::slot(input, p, bitshift)] as int;
    lemma_size_step(input, bitshift, dict, at, at);
    if at + 12 > n {
        lemma_extension_size((n - at) as nat);
    } else {
        lemma_run_position(input, bitshift, p, p, at);
        if at - y <= 65535 {
            lemma_run_found(input, bitshift, dict, 0, at, p);
            lemma_run_copied(input, p, at, y);
            lemma_size_step(input, bitshift, stop.dict, n - 5, n - 5);
            lemma_extension_size((n - 5 - at - 4) as nat);
        } else {
            lemma_run_size_next(input, bitshift, dict, at, p);
        }
    }
}

/// What is left of a run costs next to nothing.
proof fn lemma_run_size(
    input: Seq<u8>,
    bitshift: nat,
    dict: Seq<usize>,
    at: int,
    p: int,
)
    requires
        bitshift == search::dictionary(input.len()).1,
        dict.len() == search::dictionary(input.len()).0,
        run_from(input, p),
        0 <= p <= at <= input.len() <= usize::MAX,
        p + 4 <= input.len(),
    ensures
        size_from(input, bitshift, dict, at, at) <= (input.len() - at) / 255 + 17,
{
    let n = input.len() as int;
    let s = search::slot(input, at, bitshift);
    let stop = search::search(input, bitshift, dict, 0, at);
    lemma_size_step(input, bitshift, dict, at, at);
    search::law_every_position_has_a_slot(input, at);
    if at + 12 > n {
        lemma_extension_size((n - at) as nat);
    } else if search::usable(input, dict[s] as int, at) {
        let len = search::copy_length(input, at, dict[s] as int);
        lemma_run_position(input, bitshift, p, p, at);
        lemma_run_size_known(input, bitshift, stop.dict, at + len, p);
        lemma_extension_size((len - 4) as nat);
    } else {
        lemma_run_size_next(input, bitshift, dict, at, p);
    }
}

/// A search that has not come far takes short steps.
proof fn lemma_step_size(k: nat, p: int, w: nat)
    requires
        trace::strides(k) < p <= 32 * w * w,
    ensures
        (65 + k) / 64 <= w + 2,
{
    if k >= 64 * (w + 1) {
        let q = w + 1;
        trace::lemma_strides_grow(64 * q, k);
        assert((64 * q) / 64 == q);
        assert(64 * q + q * (64 * q - 31 - 32 * q) > 32 * w * w) by (nonlinear_arith)
            requires
                q == w + 1,
        ;
    }
}

/// A search keeps the number of slots.
proof fn lemma_search_keeps_slots(
    input: Seq<u8>,
    bitshift: nat,
    dict: Seq<usize>,
    k: nat,
    at: int,
)
    requires
        bitshift == search::dictionary(input.len()).1,
        dict.len() == search::dictionary(input.len()).0,
    ensures
        search::search(input, bitshift, dict, k, at).dict.len() == dict.len(),
    decreases search::remaining(input, at),
{
    let s = search::slot(input, at, bitshift);
    search::law_every_position_has_a_slot(input, at);
    if at + 12 <= input.len() && !search::usable(input, dict[s] as int, at) {
        lemma_search_keeps_slots(
            input,
            bitshift,
            dict.update(s, at as usize),
            k + 1,
            at + (65 + k) / 64,
        );
    }
}

/// A search that begins before a run stops before it or soon after its start.
proof fn lemma_search_into_run(
    input: Seq<u8>,
    bitshift: nat,
    dict: Seq<usize>,
    k: nat,
    from: int,
    p: int,
    w: nat,
)
    requires
        bitshift == search::dictionary(input.len()).1,
        dict.len() == search::dictionary(input.len()).0,
        run_from(input, p),
        0 < from,
        from + trace::strides(k) < p <= 32 * w * w,
        w <= 65_000,
        p + 2 * w + 17 <= input.len() <= usize::MAX,
    ensures
        ({
            let stop = search::search(input, bitshift, dict, k, from + trace::strides(k));
            stop.source is Some && stop.at <= p + 2 * w + 5
        }),
    decreases p - trace::strides(k),
{
    let at = from + trace::strides(k);
    let s = search::slot(input, at, bitshift);
    trace::law_steps_are_bounded(k);
    trace::law_steps_are_bounded(0);
    trace::lemma_strides_grow(0, k);
    search::law_every_position_has_a_slot(input, at);
    if !search::usable(input, dict[s] as int, at) {
        let filled = dict.update(s, at as usize);
        let next = at + (65 + k) / 64;
        lemma_step_size(k, p, w);
        assert(next == from + trace::strides(k + 1));
        if next < p {
            lemma_search_into_run(input, bitshift, filled, k + 1, from, p, w);
        } else {
            let t = search::slot(input, next, bitshift);
            search::law_every_position_has_a_slot(input, next);
            if !search::usable(input, filled[t] as int, next) {
                lemma_run_found_next(input, bitshift, filled, k + 1, next, p);
            }
        }
    }
}

/// A sequence is no longer than what it stands for, but for one byte for each 255.
proof fn lemma_sequence_size(l: nat, m: nat)
    requires
        m >= 4,
    ensures
        sequence_size(l, m) <= (l + m) + (l + m) / 255,
        sequence_size(l, m) <= l + l / 255 + m / 255 + 5,
{
    lemma_extension_size(l);
    lemma_extension_size((m - 4) as nat);
}

/// The length of a block from before a run on.
proof fn lemma_size_with_run(
    input: Seq<u8>,
    bitshift: nat,
    dict: Seq<usize>,
    from: int,
    start: int,
    p: int,
    w: nat,
)
    requires
        bitshift == search::dictionary(input.len()).1,
        dict.len() == search::dictionary(input.len()).0,
        run_from(input, p),
        0 <= start <= from,
        0 < from < p <= 32 * w * w,
        w <= 65_000,
        p + 2 * w + 17 <= input.len() <= usize::MAX,
    ensures
        size_from(input, bitshift, dict, from, start) <= (p - start) + (p - start) / 255 + (
        input.len() - p) / 255 + 3 * w + 40,
    decreases p - from,
{
    let n = input.len() as int;
    let stop = search::search(input, bitshift, dict, 0, from);
    trace::law_steps_are_bounded(0);
    lemma_search_into_run(input, bitshift, dict, 0, from, p, w);
    lemma_search_keeps_slots(input, bitshift, dict, 0, from);
    lemma_size_step(input, bitshift, dict, from, start);
    if let Some(source) = stop.source {
        let len = search::copy_length(input, stop.at, source);
        let next = stop.at + len;
        let l = (stop.at - start) as nat;
        lemma_sequence_size(l, len);
        if next < p {
            lemma_size_with_run(input, bitshift, stop.dict, next, next, p, w);
        } else {
            lemma_run_size(input, bitshift, stop.dict, next, p);
        }
    }
}

/// A run at the end of an input is found, however much comes before it that does not repeat: the
/// search never takes longer steps than 2 + `w`, where 32 times the square of `w` is what it may have
/// come through in vain. So all but the bytes before the run cost next to nothing.
pub proof fn law_run_at_the_end_is_copied(input: Seq<u8>, p: int, w: nat)
    requires
        0 <= p,
        1 <= w <= 65_000,
        p <= 32 * w * w,
        p + 2 * w + 19 <= input.len() <= usize::MAX,
        forall|i: int| p <= i < input.len() ==> #[trigger] input[i] == input[p],
    ensures
        search::compressed(input).len() <= p + p / 255 + (input.len() - p) / 255 + 3 * w + 43,
{
    let q = if p < 2 {
        2
    } else {
        p
    };
    assert(32 <= 32 * w * w) by (nonlinear_arith)
        requires
            1 <= w,
    ;
    assert(run_from(input, q)) by {
        assert(input[q] == input[p]);
    }
    lemma_size_with_run(
        input,
        search::dictionary(input.len()).1,
        search::empty_dict(input),
        1,
        0,
        q,
        w,
    );
}

} // verus!
