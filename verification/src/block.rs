//! The LZ4 block format: how a block is laid out in bytes, and what it decodes to.
//!
//! A block is a row of sequences. Each holds a run of literal bytes and then a copy of bytes that
//! were decoded earlier, named by how far back they start and by how many they are. The last
//! sequence holds literals alone.

use vstd::prelude::*;

verus! {

/// The shortest copy that a sequence can hold. Copy lengths are stored less this much.
pub const MINMATCH: usize = 4;

/// The farthest back that the 16 bits of an offset reach.
pub const MAX_DISTANCE: usize = 0xFFFF;

/// A number in the linear code that extends a length: 0xFF for each whole 255 in it, then one
/// byte for what is left.
pub open spec fn lsic(n: nat) -> Seq<u8> {
    Seq::new(n / 255, |i: int| 0xFFu8).push((n % 255) as u8)
}

/// The half of a token that holds the length `n`: the length itself, or 15 if it does not fit.
pub open spec fn nibble(n: nat) -> nat {
    if n < 15 {
        n
    } else {
        15
    }
}

/// The bytes that hold what the token could not of the length `n`.
pub open spec fn extension(n: nat) -> Seq<u8> {
    if n < 15 {
        Seq::empty()
    } else {
        lsic((n - 15) as nat)
    }
}

/// The token of a sequence: the number of literals in its upper half and the stored length of the
/// copy in its lower half.
pub open spec fn token(lit_len: nat, match_length: nat) -> u8 {
    (16 * nibble(lit_len) + nibble(match_length)) as u8
}

/// The token and the literals that open a sequence.
pub open spec fn literals(lits: Seq<u8>, match_length: nat) -> Seq<u8> {
    seq![token(lits.len(), match_length)] + extension(lits.len()) + lits
}

/// The offset of a copy, in little endian.
pub open spec fn offset_bytes(offset: nat) -> Seq<u8> {
    seq![(offset % 256) as u8, (offset / 256) as u8]
}

/// A sequence: literals, then a copy of `match_length + 4` bytes that start `offset` bytes back.
pub open spec fn sequence(lits: Seq<u8>, offset: nat, match_length: nat) -> Seq<u8> {
    literals(lits, match_length) + offset_bytes(offset) + extension(match_length)
}

/// Reads a number in the linear code off the front of `bytes`: the number, and what follows it.
pub open spec fn read_lsic(bytes: Seq<u8>) -> Option<(nat, Seq<u8>)>
    decreases bytes.len(),
{
    if bytes.len() == 0 {
        None
    } else if bytes[0] != 0xFF {
        Some((bytes[0] as nat, bytes.skip(1)))
    } else {
        match read_lsic(bytes.skip(1)) {
            Some((n, rest)) => Some((255 + n, rest)),
            None => None,
        }
    }
}

/// Reads the length whose token half is `half`: the length, and what follows its extension.
pub open spec fn read_length(half: nat, bytes: Seq<u8>) -> Option<(nat, Seq<u8>)> {
    if half < 15 {
        Some((half, bytes))
    } else {
        match read_lsic(bytes) {
            Some((n, rest)) => Some((15 + n, rest)),
            None => None,
        }
    }
}

/// `out` with `n` more bytes, each the byte that stands `offset` before it.
pub open spec fn copy_back(out: Seq<u8>, offset: nat, n: nat) -> Seq<u8>
    decreases n,
{
    if n == 0 {
        out
    } else {
        copy_back(out.push(out[out.len() - offset]), offset, (n - 1) as nat)
    }
}

/// What the sequences in `bytes` decode to after `out` has been decoded before them, or `None` if
/// they are malformed.
pub open spec fn decode_after(bytes: Seq<u8>, out: Seq<u8>) -> Option<Seq<u8>>
    decreases bytes.len(),
{
    if bytes.len() == 0 {
        None
    } else {
        match read_length((bytes[0] / 16) as nat, bytes.skip(1)) {
            None => None,
            Some((lit_len, rest)) => if lit_len > rest.len() {
                None
            } else {
                let lits = out + rest.take(lit_len as int);
                let rest = rest.skip(lit_len as int);
                if rest.len() == 0 {
                    Some(lits)
                } else if rest.len() < 2 {
                    None
                } else {
                    let offset = rest[0] as nat + 256 * rest[1] as nat;
                    match read_length((bytes[0] % 16) as nat, rest.skip(2)) {
                        None => None,
                        Some((match_length, next)) => if offset == 0 || offset > lits.len() {
                            None
                        } else {
                            proof {
                                lemma_read_length_shortens((bytes[0] / 16) as nat, bytes.skip(1));
                                lemma_read_length_shortens((bytes[0] % 16) as nat, rest.skip(2));
                            }
                            decode_after(next, copy_back(lits, offset, match_length + MINMATCH as nat))
                        },
                    }
                }
            },
        }
    }
}

/// What a block decodes to, or `None` if it is malformed.
pub open spec fn decode(block: Seq<u8>) -> Option<Seq<u8>> {
    decode_after(block, Seq::empty())
}

proof fn lemma_read_lsic_shortens(bytes: Seq<u8>)
    ensures
        read_lsic(bytes) matches Some((n, rest)) ==> rest.len() < bytes.len(),
    decreases bytes.len(),
{
    if bytes.len() > 0 {
        lemma_read_lsic_shortens(bytes.skip(1));
    }
}

pub proof fn lemma_read_length_shortens(half: nat, bytes: Seq<u8>)
    ensures
        read_length(half, bytes) matches Some((n, rest)) ==> rest.len() <= bytes.len(),
{
    lemma_read_lsic_shortens(bytes);
}

/// A number of at least 255 starts with 0xFF and goes on with the code of what is left.
pub proof fn lemma_lsic_unfold(n: nat)
    requires
        n >= 255,
    ensures
        lsic(n) == seq![0xFFu8] + lsic((n - 255) as nat),
{
    assert(n / 255 == (n - 255) as nat / 255 + 1);
    assert(lsic(n) =~= seq![0xFFu8] + lsic((n - 255) as nat));
}

/// The linear code of a number is as many bytes of 0xFF as it has whole 255s, and one more byte.
pub proof fn law_lsic_bytes(n: nat)
    ensures
        lsic(n).len() == n / 255 + 1,
        forall|i: int| 0 <= i < n / 255 ==> #[trigger] lsic(n)[i] == 0xFF,
        lsic(n)[(n / 255) as int] == n % 255,
{
}

/// What a length takes beyond its half of the token: nothing up to 14, and then one byte and one
/// more for each whole 255 from 15 on.
pub proof fn law_extension_bytes(n: nat)
    ensures
        n < 15 ==> extension(n).len() == 0,
        n >= 15 ==> extension(n) == lsic((n - 15) as nat) && extension(n).len() == (n - 15) as nat
            / 255 + 1,
{
}

/// How the last literals are laid out: a token with their number, cut off at 15, and no copy, then what
/// the number takes beyond the token, and the literals.
pub proof fn law_last_literals_layout(lits: Seq<u8>)
    ensures
        ({
            let bytes = literals(lits, 0);
            let first = 1 + extension(lits.len()).len() as int;
            &&& bytes.len() == first + lits.len()
            &&& bytes[0] == 16 * if lits.len() < 15 {
                lits.len() as int
            } else {
                15
            }
            &&& bytes.subrange(1, first) == extension(lits.len())
            &&& bytes.skip(first) == lits
        }),
{
    let bytes = literals(lits, 0);
    let first = 1 + extension(lits.len()).len() as int;
    assert(bytes.subrange(1, first) =~= extension(lits.len()));
    assert(bytes.skip(first) =~= lits);
}

/// How a sequence is laid out: the token with both lengths, cut off at 15, then what the first one
/// takes beyond the token, the literals, the offset with its lower byte first, and what the second
/// one takes beyond the token.
pub proof fn law_sequence_layout(lits: Seq<u8>, offset: nat, match_length: nat)
    requires
        offset <= 0xFFFF,
    ensures
        ({
            let bytes = sequence(lits, offset, match_length);
            let first = 1 + extension(lits.len()).len() as int;
            let behind = first + lits.len();
            &&& bytes.len() == behind + 2 + extension(match_length).len()
            &&& bytes[0] / 16 == if lits.len() < 15 {
                lits.len()
            } else {
                15
            }
            &&& bytes[0] % 16 == if match_length < 15 {
                match_length
            } else {
                15
            }
            &&& bytes.subrange(1, first) == extension(lits.len())
            &&& bytes.subrange(first, behind) == lits
            &&& bytes[behind] + 256 * bytes[behind + 1] == offset
            &&& bytes.skip(behind + 2) == extension(match_length)
        }),
{
    let bytes = sequence(lits, offset, match_length);
    let first = 1 + extension(lits.len()).len() as int;
    let behind = first + lits.len();
    assert(bytes.subrange(1, first) =~= extension(lits.len()));
    assert(bytes.subrange(first, behind) =~= lits);
    assert(bytes.skip(behind + 2) =~= extension(match_length));
}

/// Reading the linear code gives back the number that was written, and leaves what follows it.
pub proof fn law_lsic_reads_back(n: nat, rest: Seq<u8>)
    ensures
        read_lsic(lsic(n) + rest) == Some((n, rest)),
    decreases n,
{
    if n < 255 {
        assert((lsic(n) + rest).skip(1) =~= rest);
    } else {
        let left = (n - 255) as nat;
        lemma_lsic_unfold(n);
        law_lsic_reads_back(left, rest);
        assert((lsic(n) + rest).skip(1) =~= lsic(left) + rest);
    }
}

/// No number's code is the front of another's: whatever follows, the number can be told.
pub proof fn law_lsic_is_prefix_free(n: nat, m: nat, s: Seq<u8>, t: Seq<u8>)
    requires
        lsic(n) + s == lsic(m) + t,
    ensures
        n == m,
        s == t,
{
    law_lsic_reads_back(n, s);
    law_lsic_reads_back(m, t);
}

/// A length is read back from its token half and its extension.
pub proof fn law_length_reads_back(n: nat, rest: Seq<u8>)
    ensures
        read_length(nibble(n), extension(n) + rest) == Some((n, rest)),
{
    if n < 15 {
        assert(extension(n) + rest =~= rest);
    } else {
        law_lsic_reads_back((n - 15) as nat, rest);
    }
}

/// A lone run of literals decodes to those literals.
pub proof fn law_last_literals_decode(lits: Seq<u8>, out: Seq<u8>)
    ensures
        decode_after(literals(lits, 0), out) == Some(out + lits),
{
    let bytes = literals(lits, 0);
    law_length_reads_back(lits.len(), lits);
    assert(bytes.skip(1) =~= extension(lits.len()) + lits);
    assert(lits.take(lits.len() as int) =~= lits);
}

/// A sequence decodes to its literals and its copy, and what follows decodes after them.
pub proof fn law_sequence_decodes(lits: Seq<u8>, offset: nat, match_length: nat, rest: Seq<u8>, out: Seq<u8>)
    requires
        1 <= offset <= MAX_DISTANCE,
        offset <= out.len() + lits.len(),
    ensures
        decode_after(sequence(lits, offset, match_length) + rest, out) == decode_after(
            rest,
            copy_back(out + lits, offset, match_length + MINMATCH as nat),
        ),
{
    let bytes = sequence(lits, offset, match_length) + rest;
    let after_lits = offset_bytes(offset) + extension(match_length) + rest;
    law_length_reads_back(lits.len(), lits + after_lits);
    assert(bytes.skip(1) =~= extension(lits.len()) + (lits + after_lits));
    assert((lits + after_lits).take(lits.len() as int) =~= lits);
    assert((lits + after_lits).skip(lits.len() as int) =~= after_lits);
    law_length_reads_back(match_length, rest);
    assert(after_lits.skip(2) =~= extension(match_length) + rest);
}

} // verus!
