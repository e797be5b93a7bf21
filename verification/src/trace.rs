//! What can be read off a block: which copies it holds, which positions were tried for them, and that
//! nothing was missed there.

use vstd::prelude::*;
use crate::block;
use crate::laws;
use crate::search;
use crate::search::Duplicate;
use crate::words;

verus! {

/// The copies in the sequences of `bytes`, which follow `done` decoded bytes.
pub open spec fn copies_after(bytes: Seq<u8>, done: int) -> Seq<Duplicate>
    decreases bytes.len(),
{
    if bytes.len() == 0 {
        Seq::empty()
    } else {
        match block::read_length((bytes[0] / 16) as nat, bytes.skip(1)) {
            None => Seq::empty(),
            Some((lit_len, rest)) => if lit_len + 2 > rest.len() {
                Seq::empty()
            } else {
                let at = done + lit_len;
                let rest = rest.skip(lit_len as int);
                match block::read_length((bytes[0] % 16) as nat, rest.skip(2)) {
                    None => Seq::empty(),
                    Some((match_length, next)) => {
                        proof {
                            block::lemma_read_length_shortens(
                                (bytes[0] / 16) as nat,
                                bytes.skip(1),
                            );
                            block::lemma_read_length_shortens(
                                (bytes[0] % 16) as nat,
                                rest.skip(2),
                            );
                        }
                        let source = at - (rest[0] + 256 * rest[1]);
                        let len = match_length + 4;
                        seq![Duplicate { at, source, len }] + copies_after(next, at + len)
                    },
                }
            },
        }
    }
}

/// The copies in a block, with the positions in what it decodes to.
pub open spec fn copies(block: Seq<u8>) -> Seq<Duplicate> {
    copies_after(block, 0)
}

/// How far a search has come when `k` positions have been tried in vain.
pub open spec fn strides(k: nat) -> int {
    k + (k / 64) * (k - 31 - 32 * (k / 64))
}

/// Whether a search from `from` on comes to `p`, if nothing stops it before.
pub open spec fn on_stride(from: int, p: int) -> bool {
    exists|k: nat| p == from + #[trigger] strides(k)
}

/// Whether `p` is tried when an input of `len` bytes is searched from `from` on and `list` are the
/// copies that come of it. Each search ends with a copy, and the next begins behind it. None goes on
/// to where fewer than twelve bytes are left.
pub open spec fn tried(len: nat, list: Seq<Duplicate>, from: int, p: int) -> bool
    decreases list.len(),
{
    ||| on_stride(from, p) && p + 12 <= len && (list.len() > 0 ==> p <= list[0].at)
    ||| list.len() > 0 && tried(len, list.skip(1), list[0].at + list[0].len, p)
}

/// The positions that have been tried when `input` has been compressed to `block`: the first one, and
/// those that the searches from the second one on come to.
pub open spec fn tried_in(input: Seq<u8>, block: Seq<u8>) -> Set<int> {
    Set::new(|p: int| p == 0 || tried(input.len(), copies(block), 1, p))
}

/// A search takes steps of one byte at first, and longer ones by one byte after each 64 positions. It
/// never takes longer ones than that.
pub proof fn law_steps_are_bounded(k: nat)
    ensures
        strides(0) == 0,
        strides(k + 1) - strides(k) == 1 + (k + 1) / 64,
{
    let q = (k / 64) as int;
    let r = ((k + 1) / 64) as int;
    if r == q {
        assert((k + 1) + r * ((k + 1) - 31 - 32 * r) == k + q * (k - 31 - 32 * q) + 1 + r)
            by (nonlinear_arith)
            requires
                r == q,
        ;
    } else {
        assert(r == q + 1 && k + 1 == 64 * r);
        assert((k + 1) + r * ((k + 1) - 31 - 32 * r) == k + q * (k - 31 - 32 * q) + 1 + r)
            by (nonlinear_arith)
            requires
                r == q + 1,
                k + 1 == 64 * r,
        ;
    }
}

/// A search comes at least one byte further with each position.
pub proof fn lemma_strides_grow(i: nat, j: nat)
    requires
        i <= j,
    ensures
        strides(j) - strides(i) >= j - i,
    decreases j,
{
    if i < j {
        lemma_strides_grow(i, (j - 1) as nat);
        law_steps_are_bounded((j - 1) as nat);
    }
}

/// A search comes to nothing between two positions that it tries one after the other.
proof fn lemma_between_strides(from: int, k: nat, p: int)
    requires
        on_stride(from, p),
        from + strides(k) < p,
    ensures
        from + strides(k + 1) <= p,
{
    let j = choose|j: nat| p == from + #[trigger] strides(j);
    if j <= k {
        lemma_strides_grow(j, k);
    } else {
        lemma_strides_grow(k + 1, j);
    }
}

proof fn lemma_tried_bounds(len: nat, list: Seq<Duplicate>, from: int, p: int)
    requires
        tried(len, list, from, p),
        list.len() > 0 ==> from <= list[0].at,
        forall|i: int, k: int|
            0 <= i < k < list.len() ==> (#[trigger] list[i]).at + list[i].len <= (#[trigger] list[k]).at,
    ensures
        from <= p,
        p + 12 <= len,
    decreases list.len(),
{
    if on_stride(from, p) && p + 12 <= len {
        let k = choose|k: nat| p == from + #[trigger] strides(k);
        lemma_strides_grow(0, k);
        law_steps_are_bounded(0);
    } else {
        let rest = list.skip(1);
        assert(forall|i: int| 0 <= i < rest.len() ==> rest[i] == list[i + 1]);
        lemma_tried_bounds(len, rest, list[0].at + list[0].len, p);
    }
}

/// Whether every slot holds the latest of the positions in `seen` before `bound` that belong there, or
/// 0 if there is none.
spec fn latest(
    input: Seq<u8>,
    bitshift: nat,
    dict: Seq<usize>,
    seen: Set<int>,
    bound: int,
) -> bool {
    &&& seen.contains(0)
    &&& forall|s: int|
        0 <= s < dict.len() ==> #[trigger] dict[s] == 0 || {
            &&& seen.contains(dict[s] as int)
            &&& dict[s] < bound
            &&& search::slot(input, dict[s] as int, bitshift) == s
        }
    &&& forall|p: int| #[trigger]
        seen.contains(p) && p < bound ==> p <= dict[search::slot(input, p, bitshift)]
}

/// Whether `y` offers no copy that a dictionary of the positions in `seen` would show: for each earlier
/// one with the same four bytes that is near enough, another one with the same slot comes between.
#[verifier::opaque]
spec fn covered(input: Seq<u8>, bitshift: nat, seen: Set<int>, y: int) -> bool {
    forall|x: int| #[trigger]
        seen.contains(x) && x < y && y - x <= 65535 && input.subrange(x, x + 4) == input.subrange(
            y,
            y + 4,
        ) ==> exists|z: int| #[trigger]
            seen.contains(z) && x < z < y && search::slot(input, z, bitshift) == search::slot(
                input,
                y,
                bitshift,
            )
}

/// Whether `source` is the latest of the positions in `seen` before `y` that have the slot of `y`.
#[verifier::opaque]
spec fn latest_before(
    input: Seq<u8>,
    bitshift: nat,
    seen: Set<int>,
    source: int,
    y: int,
) -> bool {
    &&& seen.contains(source)
    &&& source < y
    &&& forall|z: int| #[trigger]
        seen.contains(z) && source < z < y ==> search::slot(input, z, bitshift) != search::slot(
            input,
            y,
            bitshift,
        )
}

/// A position whose candidate is of no use is covered.
proof fn lemma_useless_is_covered(
    input: Seq<u8>,
    bitshift: nat,
    dict: Seq<usize>,
    seen: Set<int>,
    y: int,
)
    requires
        bitshift == search::dictionary(input.len()).1,
        dict.len() == search::dictionary(input.len()).0,
        latest(input, bitshift, dict, seen, y),
        0 <= y,
        y + 12 <= input.len(),
        forall|p: int| #[trigger] seen.contains(p) ==> 0 <= p,
        !search::usable(input, dict[search::slot(input, y, bitshift)] as int, y),
    ensures
        covered(input, bitshift, seen, y),
{
    reveal(covered);
    let s = search::slot(input, y, bitshift);
    search::law_every_position_has_a_slot(input, y);
    assert forall|x: int| #[trigger]
        seen.contains(x) && x < y && y - x <= 65535 && input.subrange(x, x + 4) == input.subrange(
            y,
            y + 4,
        ) implies exists|z: int| #[trigger]
        seen.contains(z) && x < z < y && search::slot(input, z, bitshift) == s by {
        search::law_equal_batches_are_equal_bytes(input, x, y);
        assert(search::slot(input, x, bitshift) == s);
        assert(x <= dict[s]);
        assert(x != dict[s]);
        assert(seen.contains(dict[s] as int));
    }
}

/// What one search does, where `seen` holds the positions that are tried before it and in it.
proof fn lemma_search_traced(
    input: Seq<u8>,
    bitshift: nat,
    dict: Seq<usize>,
    k: nat,
    from: int,
    seen: Set<int>,
)
    requires
        input.len() <= usize::MAX,
        bitshift == search::dictionary(input.len()).1,
        dict.len() == search::dictionary(input.len()).0,
        0 < from,
        latest(input, bitshift, dict, seen, from + strides(k)),
        forall|p: int| #[trigger] seen.contains(p) ==> 0 <= p,
        forall|p: int|
            from + strides(k) <= p <= search::search(
                input,
                bitshift,
                dict,
                k,
                from + strides(k),
            ).at ==> (#[trigger] seen.contains(p) <==> on_stride(from, p) && p + 12 <= input.len()),
    ensures
        ({
            let stop = search::search(input, bitshift, dict, k, from + strides(k));
            &&& on_stride(from, stop.at)
            &&& stop.dict.len() == dict.len()
            &&& forall|y: int| #[trigger]
                seen.contains(y) && from + strides(k) <= y < stop.at ==> covered(
                    input,
                    bitshift,
                    seen,
                    y,
                )
            &&& match stop.source {
                None => latest(input, bitshift, stop.dict, seen, stop.at),
                Some(source) => {
                    &&& latest_before(input, bitshift, seen, source, stop.at)
                    &&& latest(input, bitshift, stop.dict, seen, stop.at + 1)
                },
            }
        }),
    decreases search::remaining(input, from + strides(k)),
{
    let at = from + strides(k);
    let s = search::slot(input, at, bitshift);
    let stop = search::search(input, bitshift, dict, k, at);
    lemma_strides_grow(0, k);
    law_steps_are_bounded(0);
    law_steps_are_bounded(k);
    search::law_every_position_has_a_slot(input, at);
    search::lemma_search_bounds(input, bitshift, dict, k, at);
    assert(on_stride(from, at));
    if at + 12 <= input.len() {
        let filled = dict.update(s, at as usize);
        assert(seen.contains(at));
        assert(latest(input, bitshift, filled, seen, at + 1)) by {
            assert forall|p: int| #[trigger] seen.contains(p) && p < at + 1 implies p
                <= filled[search::slot(input, p, bitshift)] by {
                search::law_every_position_has_a_slot(input, p);
                assert(p < at ==> p <= dict[search::slot(input, p, bitshift)]);
            }
        }
        if search::usable(input, dict[s] as int, at) {
            reveal(latest_before);
            assert forall|z: int| #[trigger]
                seen.contains(z) && dict[s] < z < at implies search::slot(input, z, bitshift)
                != s by {
                assert(z <= dict[search::slot(input, z, bitshift)]);
            }
        } else {
            lemma_useless_is_covered(input, bitshift, dict, seen, at);
            let next = from + strides(k + 1);
            assert(next == at + (65 + k) / 64);
            search::lemma_search_bounds(input, bitshift, filled, k + 1, next);
            assert forall|p: int| #[trigger] seen.contains(p) && at < p implies next <= p by {
                if p < next {
                    assert(on_stride(from, p));
                    lemma_between_strides(from, k, p);
                }
            }
            assert(latest(input, bitshift, filled, seen, next));
            lemma_search_traced(input, bitshift, filled, k + 1, from, seen);
        }
    }
}

/// A slot that holds the latest position goes on to do so as long as no other is tried.
proof fn lemma_latest_goes_on(
    input: Seq<u8>,
    bitshift: nat,
    dict: Seq<usize>,
    seen: Set<int>,
    bound: int,
    next: int,
)
    requires
        latest(input, bitshift, dict, seen, bound),
        bound <= next,
        forall|p: int| #[trigger] seen.contains(p) ==> p < bound || next <= p,
    ensures
        latest(input, bitshift, dict, seen, next),
{
}

/// The positions that are tried up to the first copy are those of one search, and all others come behind
/// that copy.
proof fn lemma_seen_before_and_behind(
    input: Seq<u8>,
    list: Seq<Duplicate>,
    from: int,
    seen: Set<int>,
)
    requires
        list.len() > 0,
        laws::sound_from(input, list, from),
        forall|p: int|
            from <= p ==> (#[trigger] seen.contains(p) <==> tried(input.len(), list, from, p)),
    ensures
        ({
            let next = list[0].at + list[0].len;
            &&& forall|p: int|
                from <= p <= list[0].at ==> (#[trigger] seen.contains(p) <==> on_stride(from, p) && p
                    + 12 <= input.len())
            &&& forall|p: int| #[trigger] seen.contains(p) ==> p <= list[0].at || next <= p
            &&& forall|p: int|
                next <= p ==> (#[trigger] seen.contains(p) <==> tried(
                    input.len(),
                    list.skip(1),
                    next,
                    p,
                ))
        }),
{
    let next = list[0].at + list[0].len;
    let rest = list.skip(1);
    laws::lemma_sound_from(input, rest, next);
    assert forall|p: int| #[trigger] tried(input.len(), rest, next, p) implies next <= p by {
        lemma_tried_bounds(input.len(), rest, next, p);
    }
    assert forall|p: int| from <= p <= list[0].at implies (#[trigger] seen.contains(p) <==> on_stride(
        from,
        p,
    ) && p + 12 <= input.len()) by {
        assert(tried(input.len(), rest, next, p) ==> next <= p);
    }
    assert forall|p: int| #[trigger] seen.contains(p) implies p <= list[0].at || next <= p by {
        assert(tried(input.len(), rest, next, p) ==> next <= p);
        assert(from <= p ==> tried(input.len(), list, from, p));
    }
    assert forall|p: int| next <= p implies (#[trigger] seen.contains(p) <==> tried(
        input.len(),
        rest,
        next,
        p,
    )) by {
        assert(seen.contains(p) <==> tried(input.len(), list, from, p));
    }
}

/// Where the last copy of `list` ends, or `from` if there is none.
pub open spec fn list_end(list: Seq<Duplicate>, from: int) -> int {
    if list.len() == 0 {
        from
    } else {
        list.last().at + list.last().len
    }
}

/// Whether the last search, from `from` on, has gone to the end and left the latest positions.
#[verifier::opaque]
spec fn ended(
    input: Seq<u8>,
    bitshift: nat,
    stop: search::Stop,
    seen: Set<int>,
    from: int,
) -> bool {
    &&& stop.source is None
    &&& stop.at + 12 > input.len()
    &&& on_stride(from, stop.at)
    &&& stop.dict.len() == search::dictionary(input.len()).0
    &&& latest(input, bitshift, stop.dict, seen, stop.at)
}

/// What all the searches from `from` on do, where `seen` holds the positions that are tried before them
/// and in them.
proof fn lemma_copies_traced(
    input: Seq<u8>,
    bitshift: nat,
    dict: Seq<usize>,
    from: int,
    seen: Set<int>,
)
    requires
        input.len() <= usize::MAX,
        bitshift == search::dictionary(input.len()).1,
        dict.len() == search::dictionary(input.len()).0,
        0 < from,
        latest(input, bitshift, dict, seen, from),
        forall|p: int| #[trigger] seen.contains(p) ==> 0 <= p,
        forall|p: int|
            from <= p ==> (#[trigger] seen.contains(p) <==> tried(
                input.len(),
                search::duplicates_from(input, bitshift, dict, from),
                from,
                p,
            )),
        laws::sound_from(input, search::duplicates_from(input, bitshift, dict, from), from),
    ensures
        ({
            let list = search::duplicates_from(input, bitshift, dict, from);
            &&& forall|i: int|
                0 <= i < list.len() ==> seen.contains((#[trigger] list[i]).at) && latest_before(
                    input,
                    bitshift,
                    seen,
                    list[i].source,
                    list[i].at,
                )
            &&& forall|y: int| #[trigger]
                seen.contains(y) && from <= y && (forall|i: int|
                    0 <= i < list.len() ==> (#[trigger] list[i]).at != y) ==> covered(
                    input,
                    bitshift,
                    seen,
                    y,
                )
            &&& ended(
                input,
                bitshift,
                search::last_stop_from(input, bitshift, dict, from),
                seen,
                list_end(list, from),
            )
        }),
    decreases search::remaining(input, from),
{
    let list = search::duplicates_from(input, bitshift, dict, from);
    let stop = search::search(input, bitshift, dict, 0, from);
    law_steps_are_bounded(0);
    search::lemma_search_bounds(input, bitshift, dict, 0, from);
    if let Some(source) = stop.source {
        let len = search::copy_length(input, stop.at, source);
        let next = stop.at + len;
        let rest = search::duplicates_from(input, bitshift, stop.dict, next);
        search::lemma_copy_length_bound(input, stop.at, source);
        assert(list.skip(1) =~= rest);
        assert(list[0] == Duplicate { at: stop.at, source, len });
        lemma_seen_before_and_behind(input, list, from, seen);
        lemma_search_traced(input, bitshift, dict, 0, from, seen);
        lemma_latest_goes_on(input, bitshift, stop.dict, seen, stop.at + 1, next);
        lemma_copies_traced(input, bitshift, stop.dict, next, seen);
        assert(list_end(rest, next) == list_end(list, from)) by {
            if rest.len() > 0 {
                assert(rest.last() == list.last());
            }
        }
        assert forall|i: int| 0 <= i < list.len() implies seen.contains((#[trigger] list[i]).at)
            && latest_before(input, bitshift, seen, list[i].source, list[i].at) by {
            if i > 0 {
                assert(list[i] == rest[i - 1]);
            }
        }
        assert forall|y: int| #[trigger]
            seen.contains(y) && from <= y && (forall|i: int|
                0 <= i < list.len() ==> (#[trigger] list[i]).at != y) implies covered(
            input,
            bitshift,
            seen,
            y,
        ) by {
            assert(list[0].at != y);
            assert forall|i: int| 0 <= i < rest.len() implies (#[trigger] rest[i]).at != y by {
                assert(rest[i] == list[i + 1]);
            }
        }
    } else {
        lemma_search_traced(input, bitshift, dict, 0, from, seen);
        reveal(ended);
    }
}

/// No copy is read off a lone run of literals.
proof fn lemma_last_literals_hold_no_copy(lits: Seq<u8>, done: int)
    ensures
        copies_after(block::literals(lits, 0), done) == Seq::<Duplicate>::empty(),
{
    let bytes = block::literals(lits, 0);
    block::law_length_reads_back(lits.len(), lits);
    assert(bytes.skip(1) =~= block::extension(lits.len()) + lits);
}

/// The copy of a sequence is read off it, and what follows is read after it.
proof fn lemma_sequence_reads_back(
    lits: Seq<u8>,
    offset: nat,
    match_length: nat,
    rest: Seq<u8>,
    done: int,
)
    requires
        offset <= 0xFFFF,
    ensures
        ({
            let at = done + lits.len();
            let len = match_length + 4;
            copies_after(block::sequence(lits, offset, match_length) + rest, done) == seq![
                Duplicate { at, source: at - offset, len },
            ] + copies_after(rest, at + len)
        }),
{
    let bytes = block::sequence(lits, offset, match_length) + rest;
    let after_lits = block::offset_bytes(offset) + block::extension(match_length) + rest;
    let upper = (bytes[0] / 16) as nat;
    let lower = (bytes[0] % 16) as nat;
    assert(block::read_length(upper, bytes.skip(1)) == Some((lits.len(), lits + after_lits))) by {
        assert(upper == block::nibble(lits.len()));
        block::law_length_reads_back(lits.len(), lits + after_lits);
        assert(bytes.skip(1) =~= block::extension(lits.len()) + (lits + after_lits));
    }
    assert((lits + after_lits).skip(lits.len() as int) =~= after_lits);
    assert(block::read_length(lower, after_lits.skip(2)) == Some((match_length, rest))) by {
        assert(lower == block::nibble(match_length));
        block::law_length_reads_back(match_length, rest);
        assert(after_lits.skip(2) =~= block::extension(match_length) + rest);
    }
    assert(after_lits[0] + 256 * after_lits[1] == offset);
}

/// The copies that a block is made of can be read off it.
proof fn lemma_copies_read_back(input: Seq<u8>, list: Seq<Duplicate>, start: int)
    requires
        0 <= start <= input.len(),
        laws::sound_from(input, list, start),
    ensures
        copies_after(search::block_from(input, list, start), start) == list,
    decreases list.len(),
{
    if list.len() == 0 {
        lemma_last_literals_hold_no_copy(input.skip(start), start);
    } else {
        let copy = list[0];
        let next = copy.at + copy.len;
        lemma_sequence_reads_back(
            input.subrange(start, copy.at),
            (copy.at - copy.source) as nat,
            (copy.len - 4) as nat,
            search::block_from(input, list.skip(1), next),
            start,
        );
        lemma_copies_read_back(input, list.skip(1), next);
        assert(seq![copy] + list.skip(1) =~= list);
    }
}

/// The copies in the block of an input are the duplicates that were found in it.
pub proof fn law_copies_are_the_duplicates(input: Seq<u8>)
    requires
        input.len() <= usize::MAX,
    ensures
        copies(search::compressed(input)) == search::duplicates(input),
{
    laws::lemma_duplicates_sound(input);
    lemma_copies_read_back(input, search::duplicates(input), 0);
}

/// Every copy in the block of an input repeats bytes of the input, from at most 65535 bytes back. The
/// copies come in order, do not overlap, and leave the last five bytes alone.
pub proof fn law_copies_are_sound(input: Seq<u8>, i: int)
    requires
        input.len() <= usize::MAX,
        0 <= i < copies(search::compressed(input)).len(),
    ensures
        ({
            let list = copies(search::compressed(input));
            &&& 0 <= list[i].source < list[i].at <= list[i].source + 65535
            &&& list[i].len >= 4
            &&& list[i].at + 12 <= input.len()
            &&& list[i].at + list[i].len + 5 <= input.len()
            &&& input.subrange(list[i].at, list[i].at + list[i].len) == input.subrange(
                list[i].source,
                list[i].source + list[i].len,
            )
            &&& i > 0 ==> list[i - 1].at + list[i - 1].len <= list[i].at
        }),
{
    let list = copies(search::compressed(input));
    law_copies_are_the_duplicates(input);
    laws::law_duplicates_are_sound(input);
    let copy = list[i];
    assert(laws::sound(input, copy));
    let to = input.subrange(copy.at, copy.at + copy.len);
    let of = input.subrange(copy.source, copy.source + copy.len);
    assert forall|j: int| 0 <= j < copy.len implies to[j] == of[j] by {
        assert(input[copy.at + j] == input[copy.source + j]);
    }
    assert(to =~= of);
    if i > 0 {
        assert(search::duplicates(input)[i - 1].at + search::duplicates(input)[i - 1].len
            <= search::duplicates(input)[i].at);
    }
}

/// A copy is as long as it can be: all its bytes agree, it leaves the last five bytes of the input alone,
/// and it ends only there or before a byte that differs.
pub proof fn law_copy_length(input: Seq<u8>, at: int, source: int)
    requires
        0 <= source < at,
        at + 12 <= input.len(),
        input.subrange(source, source + 4) == input.subrange(at, at + 4),
    ensures
        ({
            let len = search::copy_length(input, at, source);
            &&& len >= 4
            &&& at + len + 5 <= input.len()
            &&& input.subrange(at, at + len) == input.subrange(source, source + len)
            &&& at + len + 5 == input.len() || input[at + len] != input[source + len]
        }),
{
    let len = search::copy_length(input, at, source);
    let limit = search::match_limit(input, at + 4);
    search::lemma_copy_length_bound(input, at, source);
    words::lemma_common_bytes_bound(input, at + 4, source + 4, limit);
    words::lemma_common_bytes_end(input, at + 4, source + 4, limit);
    assert(at + 4 + (len - 4) == at + len && source + 4 + (len - 4) == source + len);
    let to = input.subrange(at, at + len);
    let of = input.subrange(source, source + len);
    assert forall|j: int| 0 <= j < len implies to[j] == of[j] by {
        if j < 4 {
            assert(input.subrange(at, at + 4)[j] == input.subrange(source, source + 4)[j]);
        } else {
            assert(input[at + 4 + (j - 4)] == input[source + 4 + (j - 4)]);
        }
    }
    assert(to =~= of);
}

proof fn lemma_duplicates_maximal(input: Seq<u8>, bitshift: nat, dict: Seq<usize>, from: int)
    ensures
        ({
            let list = search::duplicates_from(input, bitshift, dict, from);
            forall|i: int|
                0 <= i < list.len() ==> (#[trigger] list[i]).at + list[i].len + 5 >= input.len()
                    || input[list[i].at + list[i].len] != input[list[i].source + list[i].len]
        }),
    decreases search::remaining(input, from),
{
    let list = search::duplicates_from(input, bitshift, dict, from);
    let stop = search::search(input, bitshift, dict, 0, from);
    search::lemma_search_bounds(input, bitshift, dict, 0, from);
    if let Some(source) = stop.source {
        let len = search::copy_length(input, stop.at, source);
        let next = stop.at + len;
        let rest = search::duplicates_from(input, bitshift, stop.dict, next);
        search::lemma_copy_length_bound(input, stop.at, source);
        words::lemma_common_bytes_bound(
            input,
            stop.at + 4,
            source + 4,
            search::match_limit(input, stop.at + 4),
        );
        words::lemma_common_bytes_end(
            input,
            stop.at + 4,
            source + 4,
            search::match_limit(input, stop.at + 4),
        );
        lemma_duplicates_maximal(input, bitshift, stop.dict, next);
        assert forall|i: int| 0 <= i < list.len() implies (#[trigger] list[i]).at + list[i].len + 5
            >= input.len() || input[list[i].at + list[i].len] != input[list[i].source
            + list[i].len] by {
            if i > 0 {
                assert(list[i] == rest[i - 1]);
            } else {
                let n = len - 4;
                assert(stop.at + 4 + n == stop.at + len && source + 4 + n == source + len);
            }
        }
    }
}

/// Every copy in the block of an input is as long as it can be: the byte behind it is not the one that
/// would have been copied, or it is the first of the last five bytes.
pub proof fn law_copies_are_as_long_as_can_be(input: Seq<u8>, i: int)
    requires
        input.len() <= usize::MAX,
        0 <= i < copies(search::compressed(input)).len(),
    ensures
        ({
            let copy = copies(search::compressed(input))[i];
            copy.at + copy.len + 5 == input.len() || input[copy.at + copy.len]
                != input[copy.source + copy.len]
        }),
{
    law_copies_are_the_duplicates(input);
    law_copies_are_sound(input, i);
    lemma_duplicates_maximal(
        input,
        search::dictionary(input.len()).1,
        search::empty_dict(input),
        1,
    );
}

proof fn lemma_block_ends_with_literals(input: Seq<u8>, list: Seq<Duplicate>, start: int)
    requires
        0 <= start <= input.len(),
        laws::sound_from(input, list, start),
    ensures
        ({
            let bytes = search::block_from(input, list, start);
            let last = block::literals(input.skip(list_end(list, start)), 0);
            last.len() <= bytes.len() && bytes.skip(bytes.len() - last.len()) == last
        }),
    decreases list.len(),
{
    let bytes = search::block_from(input, list, start);
    let last = block::literals(input.skip(list_end(list, start)), 0);
    if list.len() > 0 {
        let rest = list.skip(1);
        let next = list[0].at + list[0].len;
        let behind = search::block_from(input, rest, next);
        lemma_block_ends_with_literals(input, rest, next);
        assert(list_end(rest, next) == list_end(list, start)) by {
            if rest.len() > 0 {
                assert(rest.last() == list.last());
            }
        }
        assert(bytes.skip(bytes.len() - last.len()) =~= behind.skip(behind.len() - last.len()));
    } else {
        assert(bytes.skip(0) =~= bytes);
    }
}

/// Behind the last copy a block holds a token with no copy in it and all the bytes that are left.
pub proof fn law_block_ends_with_literals(input: Seq<u8>)
    requires
        input.len() <= usize::MAX,
    ensures
        ({
            let bytes = search::compressed(input);
            let lits = input.skip(list_end(copies(bytes), 0));
            let last = 1 + block::extension(lits.len()).len() + lits.len();
            &&& last <= bytes.len()
            &&& bytes[bytes.len() - last] == 16 * if lits.len() < 15 {
                lits.len() as int
            } else {
                15
            }
            &&& bytes.subrange(bytes.len() - last + 1, bytes.len() - lits.len())
                == block::extension(lits.len())
            &&& bytes.skip(bytes.len() - lits.len()) == lits
        }),
{
    let bytes = search::compressed(input);
    let lits = input.skip(list_end(copies(bytes), 0));
    let last = block::literals(lits, 0);
    laws::lemma_duplicates_sound(input);
    law_copies_are_the_duplicates(input);
    lemma_block_ends_with_literals(input, search::duplicates(input), 0);
    let from = bytes.len() - last.len();
    assert(bytes.skip(from)[0] == last[0]);
    assert(bytes.subrange(from + 1, bytes.len() - lits.len()) =~= bytes.skip(from).subrange(
        1,
        last.len() - lits.len(),
    ));
    assert(last.subrange(1, last.len() - lits.len()) =~= block::extension(lits.len()));
    assert(bytes.skip(bytes.len() - lits.len()) =~= bytes.skip(from).skip(last.len() - lits.len()));
    assert(last.skip(last.len() - lits.len()) =~= lits);
}

/// What is known of the positions that have been tried and of the copies.
proof fn lemma_input_traced(input: Seq<u8>)
    requires
        13 <= input.len() <= usize::MAX,
    ensures
        ({
            let list = copies(search::compressed(input));
            let seen = tried_in(input, search::compressed(input));
            let bitshift = search::dictionary(input.len()).1;
            &&& forall|i: int|
                0 <= i < list.len() ==> seen.contains((#[trigger] list[i]).at) && latest_before(
                    input,
                    bitshift,
                    seen,
                    list[i].source,
                    list[i].at,
                )
            &&& forall|y: int| #[trigger]
                seen.contains(y) && 1 <= y && (forall|i: int|
                    0 <= i < list.len() ==> (#[trigger] list[i]).at != y) ==> covered(
                    input,
                    bitshift,
                    seen,
                    y,
                )
            &&& ended(input, bitshift, search::last_stop(input), seen, list_end(list, 1))
            &&& forall|p: int| #[trigger] seen.contains(p) ==> 0 <= p && p + 12 <= input.len()
        }),
{
    let list = copies(search::compressed(input));
    let seen = tried_in(input, search::compressed(input));
    let bitshift = search::dictionary(input.len()).1;
    let dict = search::empty_dict(input);
    law_copies_are_the_duplicates(input);
    laws::lemma_duplicates_from_sound(input, bitshift, dict, 1, 1);
    laws::lemma_sound_from(input, list, 1);
    assert forall|p: int| tried(input.len(), list, 1, p) implies 1 <= p && p + 12
        <= input.len() by {
        lemma_tried_bounds(input.len(), list, 1, p);
    }
    assert forall|p: int| #[trigger] seen.contains(p) implies 0 <= p by {
    }
    assert(latest(input, bitshift, dict, seen, 1)) by {
        search::law_every_position_has_a_slot(input, 0);
    }
    lemma_copies_traced(input, bitshift, dict, 1, seen);
}

/// No duplicate is missed. Of two positions that are tried, less than 65536 bytes apart and with the
/// same four bytes, the later one starts a copy, unless another one that is tried between them has
/// the same slot.
pub proof fn law_no_duplicate_is_missed(input: Seq<u8>, x: int, y: int)
    requires
        13 <= input.len() <= usize::MAX,
        tried_in(input, search::compressed(input)).contains(x),
        tried_in(input, search::compressed(input)).contains(y),
        x < y <= x + 65535,
        input.subrange(x, x + 4) == input.subrange(y, y + 4),
    ensures
        ({
            let list = copies(search::compressed(input));
            let seen = tried_in(input, search::compressed(input));
            let bitshift = search::dictionary(input.len()).1;
            ||| exists|i: int| 0 <= i < list.len() && (#[trigger] list[i]).at == y
            ||| exists|z: int| #[trigger]
                seen.contains(z) && x < z < y && search::slot(input, z, bitshift) == search::slot(
                    input,
                    y,
                    bitshift,
                )
        }),
{
    let list = copies(search::compressed(input));
    let seen = tried_in(input, search::compressed(input));
    lemma_input_traced(input);
    if forall|i: int| 0 <= i < list.len() ==> (#[trigger] list[i]).at != y {
        assert(covered(input, search::dictionary(input.len()).1, seen, y));
        reveal(covered);
        assert(seen.contains(x));
    }
}

/// A copy starts at a position that is tried, and is taken from the latest one before it that is tried
/// and has the same slot.
pub proof fn law_copies_are_of_the_latest(input: Seq<u8>, i: int)
    requires
        13 <= input.len() <= usize::MAX,
        0 <= i < copies(search::compressed(input)).len(),
    ensures
        ({
            let copy = copies(search::compressed(input))[i];
            let seen = tried_in(input, search::compressed(input));
            let bitshift = search::dictionary(input.len()).1;
            &&& seen.contains(copy.at)
            &&& seen.contains(copy.source)
            &&& forall|z: int| #[trigger]
                seen.contains(z) && copy.source < z < copy.at ==> search::slot(input, z, bitshift)
                    != search::slot(input, copy.at, bitshift)
        }),
{
    lemma_input_traced(input);
    reveal(latest_before);
}

/// When an input has been compressed, every slot holds the latest position that was tried and belongs
/// there, or 0 if there is none. The cursor is where the last search came to with fewer than twelve
/// bytes left.
pub proof fn law_last_dictionary_holds_the_latest(input: Seq<u8>)
    requires
        13 <= input.len() <= usize::MAX,
    ensures
        ({
            let last = search::last_stop(input);
            let seen = tried_in(input, search::compressed(input));
            let bitshift = search::dictionary(input.len()).1;
            &&& last.at + 12 > input.len()
            &&& on_stride(list_end(copies(search::compressed(input)), 1), last.at)
            &&& last.dict.len() == search::dictionary(input.len()).0
            &&& forall|s: int|
                0 <= s < last.dict.len() ==> #[trigger] last.dict[s] == 0 || seen.contains(
                    last.dict[s] as int,
                ) && search::slot(input, last.dict[s] as int, bitshift) == s
            &&& forall|p: int| #[trigger]
                seen.contains(p) ==> p <= last.dict[search::slot(input, p, bitshift)]
        }),
{
    lemma_input_traced(input);
    reveal(ended);
}

/// The positions that a search from `from` on can know of: those in its dictionary and those that it
/// comes to.
pub open spec fn known(input: Seq<u8>, bitshift: nat, dict: Seq<usize>, from: int) -> Set<int> {
    Set::new(
        |p: int|
            {
                ||| p == 0
                ||| 0 <= p < from && dict[search::slot(input, p, bitshift)] == p
                ||| from <= p && on_stride(from, p) && p + 12 <= input.len()
            },
    )
}

proof fn lemma_one_search_traced(input: Seq<u8>, bitshift: nat, dict: Seq<usize>, from: int)
    requires
        input.len() <= usize::MAX,
        bitshift == search::dictionary(input.len()).1,
        dict.len() == search::dictionary(input.len()).0,
        0 < from,
        search::filed(input, bitshift, dict),
        forall|s: int| 0 <= s < dict.len() ==> dict[s] < from,
    ensures
        ({
            let stop = search::search(input, bitshift, dict, 0, from);
            let seen = known(input, bitshift, dict, from);
            &&& on_stride(from, stop.at)
            &&& stop.source is None <==> stop.at + 12 > input.len()
            &&& forall|y: int| #[trigger]
                seen.contains(y) && from <= y < stop.at ==> covered(input, bitshift, seen, y)
            &&& stop.source matches Some(source) ==> latest_before(
                input,
                bitshift,
                seen,
                source,
                stop.at,
            )
            &&& stop.dict.len() == dict.len()
            &&& latest(input, bitshift, stop.dict, seen, stop.at + 1)
        }),
{
    let seen = known(input, bitshift, dict, from);
    law_steps_are_bounded(0);
    search::lemma_search_bounds(input, bitshift, dict, 0, from);
    assert(latest(input, bitshift, dict, seen, from)) by {
        assert forall|s: int| 0 <= s < dict.len() implies #[trigger] dict[s] == 0 || {
            &&& seen.contains(dict[s] as int)
            &&& dict[s] < from
            &&& search::slot(input, dict[s] as int, bitshift) == s
        } by {
        }
        assert forall|p: int| #[trigger] seen.contains(p) && p < from implies p
            <= dict[search::slot(input, p, bitshift)] by {
        }
    }
    lemma_search_traced(input, bitshift, dict, 0, from, seen);
    let stop = search::search(input, bitshift, dict, 0, from);
    if stop.source is None {
        lemma_latest_goes_on(input, bitshift, stop.dict, seen, stop.at, stop.at + 1);
    }
}

/// A search stops at a position that it comes to, and with nothing found only where fewer than twelve
/// bytes are left. What it finds is the latest position before that has the same slot. It leaves in
/// every slot the latest position that belongs there.
pub proof fn law_search_finds_the_latest(
    input: Seq<u8>,
    bitshift: nat,
    dict: Seq<usize>,
    from: int,
)
    requires
        input.len() <= usize::MAX,
        bitshift == search::dictionary(input.len()).1,
        dict.len() == search::dictionary(input.len()).0,
        0 < from,
        search::filed(input, bitshift, dict),
        forall|s: int| 0 <= s < dict.len() ==> dict[s] < from,
    ensures
        ({
            let stop = search::search(input, bitshift, dict, 0, from);
            let seen = known(input, bitshift, dict, from);
            &&& on_stride(from, stop.at)
            &&& stop.source is None <==> stop.at + 12 > input.len()
            &&& stop.source matches Some(source) ==> {
                &&& seen.contains(source)
                &&& source < stop.at <= source + 65535
                &&& input.subrange(source, source + 4) == input.subrange(stop.at, stop.at + 4)
                &&& forall|z: int| #[trigger]
                    seen.contains(z) && source < z < stop.at ==> search::slot(input, z, bitshift)
                        != search::slot(input, stop.at, bitshift)
            }
            &&& stop.dict.len() == dict.len()
            &&& forall|s: int|
                0 <= s < dict.len() ==> #[trigger] stop.dict[s] == 0 || {
                    &&& seen.contains(stop.dict[s] as int)
                    &&& stop.dict[s] <= stop.at
                    &&& search::slot(input, stop.dict[s] as int, bitshift) == s
                }
            &&& forall|p: int| #[trigger]
                seen.contains(p) && p <= stop.at ==> p <= stop.dict[search::slot(
                    input,
                    p,
                    bitshift,
                )]
        }),
{
    let stop = search::search(input, bitshift, dict, 0, from);
    lemma_one_search_traced(input, bitshift, dict, from);
    search::lemma_search_bounds(input, bitshift, dict, 0, from);
    reveal(latest_before);
    if let Some(source) = stop.source {
        search::law_equal_batches_are_equal_bytes(input, source, stop.at);
    }
}

/// A search passes over nothing. If it goes on behind a position that it comes to, and the same four
/// bytes are at an earlier one that it knows of and that is near enough, then another one that it
/// knows of comes between and has the same slot.
pub proof fn law_search_is_thorough(
    input: Seq<u8>,
    bitshift: nat,
    dict: Seq<usize>,
    from: int,
    x: int,
    y: int,
)
    requires
        input.len() <= usize::MAX,
        bitshift == search::dictionary(input.len()).1,
        dict.len() == search::dictionary(input.len()).0,
        0 < from,
        search::filed(input, bitshift, dict),
        forall|s: int| 0 <= s < dict.len() ==> dict[s] < from,
        known(input, bitshift, dict, from).contains(x),
        on_stride(from, y),
        y + 12 <= input.len(),
        from <= y < search::search(input, bitshift, dict, 0, from).at,
        x < y <= x + 65535,
        input.subrange(x, x + 4) == input.subrange(y, y + 4),
    ensures
        exists|z: int| #[trigger]
            known(input, bitshift, dict, from).contains(z) && x < z < y && search::slot(
                input,
                z,
                bitshift,
            ) == search::slot(input, y, bitshift),
{
    lemma_one_search_traced(input, bitshift, dict, from);
    assert(known(input, bitshift, dict, from).contains(y));
    reveal(covered);
}

} // verus!
