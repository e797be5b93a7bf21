//! Machine words read out of a byte slice in the byte order of the target, and what the exclusive
//! or of two such words tells about the bytes they were read from.

use vstd::prelude::*;

verus! {

/// The number of bytes in a machine word.
pub open spec fn word_bytes() -> nat {
    (usize::BITS / 8) as nat
}

/// The little-endian value of the `n` bytes at `pos`.
pub open spec fn le_value(input: Seq<u8>, pos: int, n: nat) -> nat
    decreases n,
{
    if n == 0 {
        0
    } else {
        input[pos] as nat + 256 * le_value(input, pos + 1, (n - 1) as nat)
    }
}

/// The big-endian value of the `n` bytes at `pos`.
pub open spec fn be_value(input: Seq<u8>, pos: int, n: nat) -> nat
    decreases n,
{
    if n == 0 {
        0
    } else {
        256 * be_value(input, pos, (n - 1) as nat) + input[pos + n - 1] as nat
    }
}

/// The value of the `n` bytes at `pos` in the byte order of the target.
pub open spec fn native_value(input: Seq<u8>, pos: int, n: nat) -> nat {
    if vstd::endian::endianness() is Little {
        le_value(input, pos, n)
    } else {
        be_value(input, pos, n)
    }
}

/// How many of the `n` low-order bytes of `value` are zero, counted up to the first that is not.
pub open spec fn zero_bytes(value: nat, n: nat) -> nat
    decreases n,
{
    if n == 0 || value % 256 != 0 {
        0
    } else {
        1 + zero_bytes(value / 256, (n - 1) as nat)
    }
}

/// How many bytes at `first` agree with those at `second`, counted up to the first that does not
/// and up to `limit`.
pub open spec fn common_bytes(input: Seq<u8>, first: int, second: int, limit: nat) -> nat
    decreases limit,
{
    if limit == 0 || input[first] != input[second] {
        0
    } else {
        1 + common_bytes(input, first + 1, second + 1, (limit - 1) as nat)
    }
}

/// `u32::from_ne_bytes` takes its four bytes in the byte order of the target: the first is the
/// lowest of the integer on a little-endian target, and the highest on a big-endian one. Which of
/// the two the target is, `vstd::endian::endianness` says.
#[verifier::external_body]
fn u32_from_ne_bytes(bytes: [u8; 4]) -> (num: u32)
    ensures
        num == native_value(bytes@, 0, 4),
{
    u32::from_ne_bytes(bytes)
}

/// Whether the target puts the lowest byte of an integer first.
pub fn is_little_endian() -> (little: bool)
    ensures
        little == (vstd::endian::endianness() is Little),
{
    proof {
        reveal_with_fuel(le_value, 5);
        reveal_with_fuel(be_value, 5);
    }
    let bytes: [u8; 4] = [1, 0, 0, 0];
    u32_from_ne_bytes(bytes) == 1
}

/// Reads the two bytes at `pos` as a native-endian integer.
pub fn read_u16(input: &[u8], pos: usize) -> (num: u16)
    requires
        pos + 2 <= input.len(),
    ensures
        num == native_value(input@, pos as int, 2),
        vstd::endian::endianness() is Little ==> num == input@[pos as int] + 0x100 * input@[pos + 1],
        vstd::endian::endianness() is Big ==> num == 0x100 * input@[pos as int] + input@[pos + 1],
{
    proof {
        reveal_with_fuel(le_value, 3);
        reveal_with_fuel(be_value, 3);
    }
    let first: u16 = input[pos] as u16;
    let second: u16 = input[pos + 1] as u16;
    if is_little_endian() {
        first + 256 * second
    } else {
        256 * first + second
    }
}

/// Reads the four bytes at `pos` as a native-endian integer.
pub fn read_u32(input: &[u8], pos: usize) -> (num: u32)
    requires
        pos + 4 <= input.len(),
    ensures
        num == native_value(input@, pos as int, 4),
        vstd::endian::endianness() is Little ==> num == input@[pos as int] + 0x100 * input@[pos + 1]
            + 0x1_0000 * input@[pos + 2] + 0x100_0000 * input@[pos + 3],
        vstd::endian::endianness() is Big ==> num == 0x100_0000 * input@[pos as int] + 0x1_0000
            * input@[pos + 1] + 0x100 * input@[pos + 2] + input@[pos + 3],
{
    proof {
        reveal_with_fuel(le_value, 5);
        reveal_with_fuel(be_value, 5);
    }
    let bytes: [u8; 4] = [input[pos], input[pos + 1], input[pos + 2], input[pos + 3]];
    u32_from_ne_bytes(bytes)
}

/// Reads a machine word at `pos` as a native-endian integer.
pub fn read_usize(input: &[u8], pos: usize) -> (num: usize)
    requires
        pos + word_bytes() <= input.len(),
    ensures
        num == native_value(input@, pos as int, word_bytes()),
{
    if usize::BITS == 64 {
        proof {
            reveal_with_fuel(le_value, 9);
            reveal_with_fuel(be_value, 9);
        }
        let first: u64 = read_u32(input, pos) as u64;
        let second: u64 = read_u32(input, pos + 4) as u64;
        if is_little_endian() {
            (first + 0x1_0000_0000 * second) as usize
        } else {
            (0x1_0000_0000 * first + second) as usize
        }
    } else {
        read_u32(input, pos) as usize
    }
}

/// The bytes of a little-endian value, from the lowest up, are those that it is read from, and those of
/// a big-endian one from the highest down.
pub proof fn law_word_is_made_of_its_bytes(input: Seq<u8>, pos: int, n: nat, j: nat)
    requires
        j < n,
    ensures
        le_value(input, pos, n) < vstd::arithmetic::power::pow(256, n),
        be_value(input, pos, n) < vstd::arithmetic::power::pow(256, n),
        (le_value(input, pos, n) as int / vstd::arithmetic::power::pow(256, j)) % 256 == input[pos + j],
        (be_value(input, pos, n) as int / vstd::arithmetic::power::pow(256, (n - 1 - j) as nat)) % 256 == input[pos + j],
{
    lemma_le_bytes(input, pos, n, j);
    lemma_be_bytes(input, pos, n, j);
}

proof fn lemma_le_bytes(input: Seq<u8>, pos: int, n: nat, j: nat)
    ensures
        le_value(input, pos, n) < vstd::arithmetic::power::pow(256, n),
        j < n ==> (le_value(input, pos, n) as int / vstd::arithmetic::power::pow(256, j)) % 256 == input[pos + j],
    decreases n,
{
    vstd::arithmetic::power::lemma_pow0(256);
    if n > 0 {
        let rest = le_value(input, pos + 1, (n - 1) as nat) as int;
        let value = le_value(input, pos, n) as int;
        lemma_le_bytes(input, pos + 1, (n - 1) as nat, 0);
        reveal_with_fuel(vstd::arithmetic::power::pow, 2);
        if 0 < j < n {
            let i = (j - 1) as nat;
            lemma_le_bytes(input, pos + 1, (n - 1) as nat, i);
            vstd::arithmetic::power::lemma_pow_positive(256, i);
            vstd::arithmetic::div_mod::lemma_div_denominator(value, 256, vstd::arithmetic::power::pow(256, i));
            assert(value / 256 == rest);
        }
    }
}

proof fn lemma_be_bytes(input: Seq<u8>, pos: int, n: nat, j: nat)
    ensures
        be_value(input, pos, n) < vstd::arithmetic::power::pow(256, n),
        j < n ==> (be_value(input, pos, n) as int / vstd::arithmetic::power::pow(256, (n - 1 - j) as nat)) % 256
            == input[pos + j],
    decreases n,
{
    vstd::arithmetic::power::lemma_pow0(256);
    if n > 0 {
        let rest = be_value(input, pos, (n - 1) as nat) as int;
        let value = be_value(input, pos, n) as int;
        lemma_be_bytes(input, pos, (n - 1) as nat, j);
        reveal_with_fuel(vstd::arithmetic::power::pow, 2);
        if j < n - 1 {
            let i = (n - 2 - j) as nat;
            vstd::arithmetic::power::lemma_pow_positive(256, i);
            vstd::arithmetic::div_mod::lemma_div_denominator(value, 256, vstd::arithmetic::power::pow(256, i));
            assert(value / 256 == rest);
        }
    }
}

/// A value ends in as many zero bytes as are counted, and in no more, unless all of its `n` bytes are
/// zero.
pub proof fn law_zero_bytes(value: nat, n: nat)
    ensures
        zero_bytes(value, n) <= n,
        value as int % vstd::arithmetic::power::pow(256, zero_bytes(value, n)) == 0,
        zero_bytes(value, n) < n ==> (value as int / vstd::arithmetic::power::pow(256, zero_bytes(value, n))) % 256 != 0,
    decreases n,
{
    vstd::arithmetic::power::lemma_pow0(256);
    if n > 0 && value % 256 == 0 {
        let m = (n - 1) as nat;
        let c = zero_bytes(value / 256, m);
        law_zero_bytes(value / 256, m);
        vstd::arithmetic::power::lemma_pow_positive(256, c);
        reveal_with_fuel(vstd::arithmetic::power::pow, 2);
        vstd::arithmetic::div_mod::lemma_div_denominator(value as int, 256, vstd::arithmetic::power::pow(256, c));
        let upper = (value / 256) as int;
        vstd::arithmetic::div_mod::lemma_fundamental_div_mod(upper, vstd::arithmetic::power::pow(256, c));
        let q = upper / vstd::arithmetic::power::pow(256, c);
        assert(value == (256 * vstd::arithmetic::power::pow(256, c)) * q) by (nonlinear_arith)
            requires
                value == 256 * upper,
                upper == vstd::arithmetic::power::pow(256, c) * q,
        ;
        vstd::arithmetic::div_mod::lemma_mod_multiples_basic(q, 256 * vstd::arithmetic::power::pow(256, c));
        vstd::arithmetic::mul::lemma_mul_is_commutative(q, 256 * vstd::arithmetic::power::pow(256, c));
    }
}

/// The number of low-order bytes of `diff` that are zero.
pub fn get_common_bytes(diff: usize) -> (count: u32)
    ensures
        count == zero_bytes(diff as nat, word_bytes()),
        diff != 0 ==> count < word_bytes(),
        diff == 0 ==> count == word_bytes(),
        diff as int % vstd::arithmetic::power::pow(256, count as nat) == 0,
        diff != 0 ==> (diff as int / vstd::arithmetic::power::pow(256, count as nat)) % 256 != 0,
{
    let tr_zeroes: u32 = if diff == 0 {
        usize::BITS
    } else {
        (diff as u64).trailing_zeros()
    };
    proof {
        assert(tr_zeroes >> 3 == tr_zeroes / 8) by (bit_vector);
        law_zero_bytes(diff as nat, word_bytes());
        if diff == 0 {
            lemma_zero_bytes_of_zero(word_bytes());
        } else {
            let t = tr_zeroes as u64;
            let value = diff as u64;
            vstd::std_specs::bits::axiom_u64_trailing_zeros(value);
            assert(value < 0x1_0000_0000 ==> t < 32) by (bit_vector)
                requires
                    t < 64,
                    (value >> t) & 1 == 1,
            ;
            lemma_zero_bytes_below_bit(value, t, word_bytes());
        }
    }
    // Shift right by 3, because only whole bytes of 8 bits are of interest.
    tr_zeroes >> 3
}

proof fn lemma_zero_bytes_of_zero(n: nat)
    ensures
        zero_bytes(0, n) == n,
    decreases n,
{
    if n > 0 {
        lemma_zero_bytes_of_zero((n - 1) as nat);
    }
}

/// A word whose lowest set bit is bit `t` has `t / 8` zero bytes at its low end.
proof fn lemma_zero_bytes_below_bit(value: u64, t: u64, n: nat)
    requires
        t < 64,
        t < 8 * n,
        (value >> t) & 1 == 1,
        value << ((64 - t) as u64) == 0,
    ensures
        zero_bytes(value as nat, n) == t / 8,
    decreases t,
{
    if t < 8 {
        assert(value % 256 != 0) by (bit_vector)
            requires
                t < 8,
                (value >> t) & 1 == 1,
        ;
    } else {
        let upper: u64 = value / 256;
        let rest: u64 = (t - 8) as u64;
        assert(value % 256 == 0 && (upper >> rest) & 1 == 1 && upper << ((64 - rest) as u64) == 0)
            by (bit_vector)
            requires
                8 <= t < 64,
                rest == t - 8,
                upper == value / 256,
                (value >> t) & 1 == 1,
                value << ((64 - t) as u64) == 0,
        ;
        lemma_zero_bytes_below_bit(upper, rest, (n - 1) as nat);
    }
}

/// The bytes on which two little-endian words agree, from the low end up, are the zero bytes at
/// the low end of their exclusive or.
proof fn lemma_common_bytes_of_words(input: Seq<u8>, first: int, second: int, a: u64, b: u64, n: nat)
    requires
        a == le_value(input, first, n),
        b == le_value(input, second, n),
    ensures
        zero_bytes((a ^ b) as nat, n) == common_bytes(input, first, second, n),
    decreases n,
{
    if n > 0 {
        let upper_a: u64 = a / 256;
        let upper_b: u64 = b / 256;
        assert((a ^ b) / 256 == upper_a ^ upper_b && ((a ^ b) % 256 == 0 <==> a % 256 == b % 256))
            by (bit_vector)
            requires
                upper_a == a / 256,
                upper_b == b / 256,
        ;
        assert(a % 256 == input[first]);
        lemma_common_bytes_of_words(input, first + 1, second + 1, upper_a, upper_b, (n - 1) as nat);
    }
}

/// Runs that agree on their first `n` bytes agree on as many more as what follows does.
pub proof fn lemma_common_bytes_split(input: Seq<u8>, first: int, second: int, n: nat, m: nat)
    requires
        common_bytes(input, first, second, n) == n,
    ensures
        common_bytes(input, first, second, n + m) == n + common_bytes(
            input,
            first + n,
            second + n,
            m,
        ),
    decreases n,
{
    if n > 0 {
        lemma_common_bytes_split(input, first + 1, second + 1, (n - 1) as nat, m);
    }
}

/// A shorter bound cuts the count short, and does nothing else.
pub proof fn lemma_common_bytes_cut(input: Seq<u8>, first: int, second: int, n: nat, m: nat)
    requires
        n <= m,
    ensures
        common_bytes(input, first, second, n) == if common_bytes(input, first, second, m) < n {
            common_bytes(input, first, second, m)
        } else {
            n
        },
    decreases n,
{
    if n > 0 {
        lemma_common_bytes_cut(input, first + 1, second + 1, (n - 1) as nat, (m - 1) as nat);
    }
}

/// Where agreement stops short of `n` bytes, it stops there for every longer bound.
proof fn lemma_common_bytes_stops(input: Seq<u8>, first: int, second: int, n: nat, m: nat)
    requires
        common_bytes(input, first, second, n) < n <= m,
    ensures
        common_bytes(input, first, second, m) == common_bytes(input, first, second, n),
    decreases n,
{
    if input[first] == input[second] {
        lemma_common_bytes_stops(input, first + 1, second + 1, (n - 1) as nat, (m - 1) as nat);
    }
}

proof fn lemma_zero_bytes_stops(value: nat, n: nat, m: nat)
    requires
        zero_bytes(value, n) < n <= m,
    ensures
        zero_bytes(value, m) == zero_bytes(value, n),
    decreases n,
{
    if value % 256 == 0 {
        lemma_zero_bytes_stops(value / 256, (n - 1) as nat, (m - 1) as nat);
    }
}

/// The bytes that are counted as agreeing do agree, and are no more than `limit`.
pub proof fn lemma_common_bytes_bound(input: Seq<u8>, first: int, second: int, limit: nat)
    ensures
        common_bytes(input, first, second, limit) <= limit,
        forall|j: int|
            0 <= j < common_bytes(input, first, second, limit) ==> input[#[trigger] (first
                + j)] == input[second + j],
    decreases limit,
{
    if limit > 0 && input[first] == input[second] {
        lemma_common_bytes_bound(input, first + 1, second + 1, (limit - 1) as nat);
        assert forall|j: int|
            0 <= j < common_bytes(input, first, second, limit) implies input[#[trigger] (
        first + j)] == input[second + j] by {
            if j > 0 {
                assert(first + j == first + 1 + (j - 1));
            }
        }
    }
}

/// Where the count of agreeing bytes ends before the bound, the bytes differ.
pub proof fn lemma_common_bytes_end(input: Seq<u8>, first: int, second: int, limit: nat)
    ensures
        ({
            let n = common_bytes(input, first, second, limit);
            n < limit ==> input[first + n] != input[second + n]
        }),
    decreases limit,
{
    if limit > 0 && input[first] == input[second] {
        lemma_common_bytes_end(input, first + 1, second + 1, (limit - 1) as nat);
        let m = common_bytes(input, first + 1, second + 1, (limit - 1) as nat);
        assert(first + 1 + m == first + (1 + m) && second + 1 + m == second + (1 + m));
    }
}

/// Two little-endian words are equal exactly when all their bytes agree.
proof fn lemma_equal_le_words(input: Seq<u8>, first: int, second: int, n: nat)
    ensures
        le_value(input, first, n) == le_value(input, second, n) <==> common_bytes(
            input,
            first,
            second,
            n,
        ) == n,
    decreases n,
{
    if n > 0 {
        lemma_equal_le_words(input, first + 1, second + 1, (n - 1) as nat);
    }
}

/// Two big-endian words are equal exactly when all their bytes agree.
proof fn lemma_equal_be_words(input: Seq<u8>, first: int, second: int, n: nat)
    ensures
        be_value(input, first, n) == be_value(input, second, n) <==> common_bytes(
            input,
            first,
            second,
            n,
        ) == n,
    decreases n,
{
    if n > 0 {
        let m = (n - 1) as nat;
        lemma_equal_be_words(input, first, second, m);
        lemma_common_bytes_bound(input, first, second, m);
        if common_bytes(input, first, second, m) == m {
            lemma_common_bytes_split(input, first, second, m, 1);
            reveal_with_fuel(common_bytes, 2);
        } else {
            lemma_common_bytes_stops(input, first, second, m, n);
        }
    }
}

/// Two words are equal exactly when all their bytes agree, whatever the byte order.
pub proof fn lemma_equal_words(input: Seq<u8>, first: int, second: int, n: nat)
    ensures
        native_value(input, first, n) == native_value(input, second, n) <==> common_bytes(
            input,
            first,
            second,
            n,
        ) == n,
{
    lemma_equal_le_words(input, first, second, n);
    lemma_equal_be_words(input, first, second, n);
}

/// Two words of `n` bytes differ in no bit exactly when all their bytes agree. If they do differ on
/// a little-endian target, the zero bytes at the low end of the difference count the bytes that
/// agree.
proof fn lemma_word_difference(
    input: Seq<u8>,
    first: int,
    second: int,
    a: u64,
    b: u64,
    n: nat,
    m: nat,
)
    requires
        a == native_value(input, first, n),
        b == native_value(input, second, n),
        n <= m,
    ensures
        common_bytes(input, first, second, n) <= n,
        a ^ b == 0 <==> common_bytes(input, first, second, n) == n,
        a ^ b != 0 && vstd::endian::endianness() is Little ==> zero_bytes((a ^ b) as nat, m)
            == common_bytes(input, first, second, n),
{
    lemma_common_bytes_bound(input, first, second, n);
    lemma_equal_words(input, first, second, n);
    assert(a == b <==> a ^ b == 0) by (bit_vector);
    if a != b && vstd::endian::endianness() is Little {
        lemma_common_bytes_of_words(input, first, second, a, b, n);
        lemma_zero_bytes_stops((a ^ b) as nat, n, m);
    }
}

/// What comparing a block of `n` bytes at `pos` tells, after all bytes before it have agreed: either
/// they agree as well, or agreement stops among them.
pub proof fn lemma_block_compared(
    input: Seq<u8>,
    first: int,
    second: int,
    limit: nat,
    pos: nat,
    a: u64,
    b: u64,
    n: nat,
)
    requires
        pos + n <= limit,
        n <= word_bytes(),
        common_bytes(input, first, second, pos) == pos,
        a == native_value(input, first + pos, n),
        b == native_value(input, second + pos, n),
    ensures
        a ^ b == 0 ==> common_bytes(input, first, second, pos + n) == pos + n,
        a ^ b != 0 ==> common_bytes(input, first, second, limit) == pos + common_bytes(
            input,
            first + pos,
            second + pos,
            n,
        ) < pos + n,
{
    lemma_word_difference(input, first + pos, second + pos, a, b, n, word_bytes());
    lemma_common_bytes_split(input, first, second, pos, n);
    if a ^ b != 0 {
        lemma_common_bytes_stops(input, first, second, pos + n, limit);
    }
}

/// The number of bytes that agree at the front of two blocks of `n` bytes, where `diff` is the
/// exclusive or of the words there, and not zero.
///
/// On a little-endian target the first bytes are the lowest of the words, so `diff` tells. On a
/// big-endian one they are the highest, and are looked at one by one.
pub fn common_bytes_of_blocks(
    input: &[u8],
    first: usize,
    second: usize,
    n: usize,
    diff: usize,
) -> (count: usize)
    requires
        first + n <= input.len(),
        second + n <= input.len(),
        n <= word_bytes(),
        diff != 0,
        diff as u64 == native_value(input@, first as int, n as nat) as u64 ^ native_value(
            input@,
            second as int,
            n as nat,
        ) as u64,
        native_value(input@, first as int, n as nat) <= u64::MAX,
        native_value(input@, second as int, n as nat) <= u64::MAX,
    ensures
        count == common_bytes(input@, first as int, second as int, n as nat),
        count < n,
        forall|j: int| 0 <= j < count ==> input@[#[trigger] (first + j)] == input@[second + j],
        input@[first + count] != input@[second + count],
{
    proof {
        lemma_common_bytes_bound(input@, first as int, second as int, n as nat);
        lemma_common_bytes_end(input@, first as int, second as int, n as nat);
        let a = native_value(input@, first as int, n as nat) as u64;
        let b = native_value(input@, second as int, n as nat) as u64;
        lemma_word_difference(input@, first as int, second as int, a, b, n as nat, word_bytes());
    }
    if is_little_endian() {
        return get_common_bytes(diff) as usize;
    }
    let mut count: usize = 0;
    while input[first + count] == input[second + count]
        invariant
            first + n <= input.len(),
            second + n <= input.len(),
            common_bytes(input@, first as int, second as int, n as nat) < n,
            count < n,
            common_bytes(input@, first as int, second as int, n as nat) == count + common_bytes(
                input@,
                first + count,
                second + count,
                (n - count) as nat,
            ),
        decreases n - count,
    {
        count += 1;
    }
    proof {
        lemma_common_bytes_bound(input@, first as int, second as int, n as nat);
    }
    count
}

} // verus!
