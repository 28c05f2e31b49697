//! Byte strings: blocks of 32 bytes, concatenation, and integers in base 256.

use vstd::arithmetic::power::pow;
use vstd::prelude::*;

verus! {

/// The `i`-th 32-byte block of `b`.
pub open spec fn block(b: Seq<u8>, i: int) -> Seq<u8> {
    b.subrange(32 * i, 32 * i + 32)
}

/// The concatenation of the given byte strings.
pub open spec fn concat(parts: Seq<Seq<u8>>) -> Seq<u8>
    decreases parts.len(),
{
    if parts.len() == 0 {
        Seq::empty()
    } else {
        concat(parts.drop_last()) + parts.last()
    }
}

/// The contents of each of the given byte vectors.
pub open spec fn contents(parts: Seq<Vec<u8>>) -> Seq<Seq<u8>> {
    Seq::new(parts.len(), |i: int| parts[i]@)
}

/// The integer whose little-endian digits in base 256 are `b`.
pub open spec fn le_value(b: Seq<u8>) -> int
    decreases b.len(),
{
    if b.len() == 0 {
        0
    } else {
        b[0] + 256 * le_value(b.skip(1))
    }
}

/// Copies the 32 bytes of `b` that start at `start`.
pub fn read_block(b: &[u8], start: usize) -> (out: [u8; 32])
    requires
        start + 32 <= b@.len(),
    ensures
        out@ == b@.subrange(start as int, start + 32),
{
    let n: usize = b.len();
    let mut out: [u8; 32] = [0u8; 32];
    let mut k: usize = 0;
    while k < 32
        invariant
            0 <= k <= 32,
            start + 32 <= n,
            n == b@.len(),
            forall|j: int| 0 <= j < k ==> out@[j] == b@[start + j],
        decreases 32 - k,
    {
        out[k] = b[start + k];
        k += 1;
    }
    assert(out@ =~= b@.subrange(start as int, start + 32));
    out
}

/// Appends the bytes of `s` to `out`.
pub fn append(out: &mut Vec<u8>, s: &[u8])
    ensures
        final(out)@ == old(out)@ + s@,
{
    let ghost before = out@;
    out.extend_from_slice(s);
    assert(out@ =~= before + s@);
}

/// A new vector with the bytes of `s`.
pub fn copy_bytes(s: &[u8]) -> (out: Vec<u8>)
    ensures
        out@ == s@,
{
    let mut out: Vec<u8> = Vec::new();
    append(&mut out, s);
    out
}

/// Whether `a` and `b` hold the same bytes.
pub fn same_bytes(a: &[u8], b: &[u8]) -> (res: bool)
    ensures
        res == (a@ == b@),
{
    let n: usize = a.len();
    if n != b.len() {
        return false;
    }
    let mut k: usize = 0;
    while k < n
        invariant
            0 <= k <= n,
            n == a@.len(),
            n == b@.len(),
            forall|j: int| 0 <= j < k ==> a@[j] == b@[j],
        decreases n - k,
    {
        if a[k] != b[k] {
            return false;
        }
        k += 1;
    }
    assert(a@ =~= b@);
    true
}

/// The `k` digits of `n` in base 256, most significant first.
pub open spec fn be_bytes(n: int, k: nat) -> Seq<u8>
    decreases k,
{
    if k == 0 {
        Seq::empty()
    } else {
        be_bytes(n / 256, (k - 1) as nat).push((n % 256) as u8)
    }
}

/// The integer whose digits in base 256 are `b`, most significant first.
pub open spec fn be_value(b: Seq<u8>) -> int
    decreases b.len(),
{
    if b.len() == 0 {
        0
    } else {
        256 * be_value(b.drop_last()) + b.last()
    }
}

/// The number of integers with at most `k` digits in base 256.
pub open spec fn be_limit(k: nat) -> int
    decreases k,
{
    if k == 0 {
        1
    } else {
        256 * be_limit((k - 1) as nat)
    }
}

/// The `k` digits of `n` in base 256, least significant first.
pub open spec fn le_bytes(n: int, k: nat) -> Seq<u8>
    decreases k,
{
    if k == 0 {
        Seq::empty()
    } else {
        seq![(n % 256) as u8] + le_bytes(n / 256, (k - 1) as nat)
    }
}

/// Appends the `k` base-256 digits of `n`, most significant first.
pub fn append_be(out: &mut Vec<u8>, n: u64, k: usize)
    ensures
        final(out)@ == old(out)@ + be_bytes(n as int, k as nat),
    decreases k,
{
    let ghost before = out@;
    if k > 0 {
        append_be(out, n / 256, k - 1);
        out.push((n % 256) as u8);
    }
    assert(out@ =~= before + be_bytes(n as int, k as nat));
}

/// Appends the `k` base-256 digits of `n`, least significant first.
pub fn append_le(out: &mut Vec<u8>, n: u64, k: usize)
    ensures
        final(out)@ == old(out)@ + le_bytes(n as int, k as nat),
    decreases k,
{
    let ghost before = out@;
    if k > 0 {
        out.push((n % 256) as u8);
        append_le(out, n / 256, k - 1);
    }
    assert(out@ =~= before + le_bytes(n as int, k as nat));
}

/// The digits of an integer that has no more than `k` of them give the integer back.
pub proof fn lemma_be_value_of_bytes(n: int, k: nat)
    requires
        0 <= n < be_limit(k),
    ensures
        be_value(be_bytes(n, k)) == n,
        be_bytes(n, k).len() == k,
    decreases k,
{
    if k > 0 {
        lemma_be_value_of_bytes(n / 256, (k - 1) as nat);
        assert(be_bytes(n, k).drop_last() =~= be_bytes(n / 256, (k - 1) as nat));
    }
}

/// `k` digits stand for an integer below the limit, and are its digits.
pub proof fn lemma_be_bytes_of_value(b: Seq<u8>)
    ensures
        0 <= be_value(b) < be_limit(b.len()),
        be_bytes(be_value(b), b.len()) == b,
    decreases b.len(),
{
    if b.len() > 0 {
        lemma_be_bytes_of_value(b.drop_last());
        let n = be_value(b);
        assert(n / 256 == be_value(b.drop_last()) && n % 256 == b.last());
        assert(be_bytes(n, b.len()) =~= b);
    } else {
        assert(be_bytes(0, 0) =~= b);
    }
}

/// Blocks of a concatenation of blocks are the blocks.
pub proof fn lemma_concat_blocks(parts: Seq<Seq<u8>>)
    requires
        forall|i: int| 0 <= i < parts.len() ==> (#[trigger] parts[i]).len() == 32,
    ensures
        concat(parts).len() == 32 * parts.len(),
        forall|i: int| 0 <= i < parts.len() ==> #[trigger] block(concat(parts), i) == parts[i],
    decreases parts.len(),
{
    if parts.len() > 0 {
        let init = parts.drop_last();
        assert forall|i: int| 0 <= i < init.len() implies (#[trigger] init[i]).len() == 32 by {
            assert(init[i] == parts[i]);
        }
        lemma_concat_blocks(init);
        assert(parts.last() == parts[parts.len() - 1]);
        assert forall|i: int| 0 <= i < parts.len() implies #[trigger] block(concat(parts), i)
            == parts[i] by {
            if i < init.len() {
                assert(block(concat(init), i) == init[i]);
                assert(block(concat(parts), i) =~= block(concat(init), i));
            } else {
                assert(block(concat(parts), i) =~= parts.last());
            }
        }
    }
}

/// The concatenation of the first blocks of `b` is the start of `b`.
pub proof fn lemma_concat_of_blocks(parts: Seq<Seq<u8>>, b: Seq<u8>)
    requires
        b.len() >= 32 * parts.len(),
        forall|i: int| 0 <= i < parts.len() ==> #[trigger] parts[i] == block(b, i),
    ensures
        concat(parts) == b.take(32 * parts.len() as int),
    decreases parts.len(),
{
    if parts.len() > 0 {
        let init = parts.drop_last();
        assert forall|i: int| 0 <= i < init.len() implies #[trigger] init[i] == block(b, i) by {
            assert(init[i] == parts[i]);
        }
        lemma_concat_of_blocks(init, b);
        assert(parts.last() == parts[parts.len() - 1]);
        assert(concat(parts) =~= b.take(32 * parts.len() as int));
    } else {
        assert(concat(parts) =~= b.take(0));
    }
}

/// What stands at each place of a written integer: the digit in base 256 that is left over when
/// it is divided as many times as there are lower digits. In one order the lowest digit comes
/// last, in the other first. The limit of `k` digits is the `k`-th power of 256.
pub proof fn law_digits_are_left_over_by_division(n: int, k: nat, i: nat)
    requires
        0 <= n,
        i < k,
    ensures
        be_bytes(n, k).len() == k,
        be_bytes(n, k)[k - 1 - i] == (n / pow(256, i)) % 256,
        le_bytes(n, k).len() == k,
        le_bytes(n, k)[i as int] == (n / pow(256, i)) % 256,
        be_limit(k) == pow(256, k),
    decreases k,
{
    lemma_be_length(n, k);
    lemma_le_length(n, k);
    lemma_limit_is_power(k);
    if i == 0 {
        vstd::arithmetic::power::lemma_pow0(256);
        assert(n / 1 == n);
    } else {
        law_digits_are_left_over_by_division(n / 256, (k - 1) as nat, (i - 1) as nat);
        lemma_be_length(n / 256, (k - 1) as nat);
        lemma_le_length(n / 256, (k - 1) as nat);
        reveal(pow);
        assert(pow(256, i) == 256 * pow(256, (i - 1) as nat));
        vstd::arithmetic::power::lemma_pow_positive(256, (i - 1) as nat);
        vstd::arithmetic::div_mod::lemma_div_denominator(n, 256, pow(256, (i - 1) as nat));
    }
}

/// The limit is a power of 256.
proof fn lemma_limit_is_power(k: nat)
    ensures
        be_limit(k) == pow(256, k),
    decreases k,
{
    reveal(pow);
    if k > 0 {
        lemma_limit_is_power((k - 1) as nat);
    }
}

/// There are as many digits as were asked for.
proof fn lemma_be_length(n: int, k: nat)
    ensures
        be_bytes(n, k).len() == k,
    decreases k,
{
    if k > 0 {
        lemma_be_length(n / 256, (k - 1) as nat);
    }
}

/// There are as many digits as were asked for.
proof fn lemma_le_length(n: int, k: nat)
    ensures
        le_bytes(n, k).len() == k,
    decreases k,
{
    if k > 0 {
        lemma_le_length(n / 256, (k - 1) as nat);
    }
}

/// The value of bytes, lowest first, is that of the lower bytes plus that of the higher ones
/// times the power of 256 that stands for their place.
pub proof fn law_little_endian_values_add_up(low: Seq<u8>, high: Seq<u8>)
    ensures
        le_value(low + high) == le_value(low) + pow(256, low.len()) * le_value(high),
        low.len() == 1 ==> le_value(low) == low[0],
        low.len() == 0 ==> le_value(low) == 0,
    decreases low.len(),
{
    reveal(pow);
    if low.len() == 0 {
        assert(low + high =~= high);
    } else {
        let rest = low.skip(1);
        law_little_endian_values_add_up(rest, high);
        assert((low + high).skip(1) =~= rest + high);
        let p = pow(256, rest.len());
        let v = le_value(high);
        assert(pow(256, low.len()) == 256 * p);
        assert(256 * (p * v) == (256 * p) * v) by (nonlinear_arith);
        if low.len() == 1 {
            assert(le_value(rest) == 0);
        }
    }
}

/// A block is 32 bytes in a row, the first block at the start, and parts one behind the other
/// are in the order in which they were given.
pub proof fn law_blocks_stand_in_a_row(b: Seq<u8>, i: int, j: int, parts: Seq<Seq<u8>>)
    ensures
        0 <= j < 32 && 0 <= 32 * i && 32 * i + 32 <= b.len() ==> block(b, i)[j] == b[32 * i + j],
        concat(parts) == parts.flatten(),
    decreases parts.len(),
{
    if parts.len() > 0 {
        law_blocks_stand_in_a_row(b, i, j, parts.drop_last());
        assert(parts =~= parts.drop_last().push(parts.last()));
        parts.drop_last().lemma_flatten_push(parts.last());
    } else {
        assert(parts.flatten() =~= Seq::empty());
    }
}

/// The contents of byte vectors are theirs, one for one.
pub proof fn law_contents_are_seen_whole(parts: Seq<Vec<u8>>, i: int)
    ensures
        contents(parts).len() == parts.len(),
        0 <= i < parts.len() ==> contents(parts)[i] == parts[i]@,
{
}

} // verus!
