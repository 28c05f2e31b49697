//! A seeded random generator.
//!
//! The generator is ChaCha20 as `rand_chacha` runs it. Its state is held as plain
//! values: the seed and the position in the stream, in 32-bit words. The stream
//! starts over after `2^68` words.

use crate::bytes::le_value;
use crate::ristretto::{order, Point, Scalar};
use curve25519_dalek::ristretto::RistrettoPoint;
use curve25519_dalek::scalar::Scalar as DalekScalar;
use rand_chacha::ChaCha20Rng;
use rand_core::{RngCore, SeedableRng};
use vstd::prelude::*;

verus! {

/// Number of words after which the stream starts over.
pub open spec fn period() -> int {
    0x1_0000_0000_0000_0000_0int
}

/// A ChaCha20 generator, by its seed and its position in the stream.
#[derive(Clone, Copy, Debug, PartialEq, Eq)]
pub struct SeededRng {
    pub seed: [u8; 32],
    pub word_pos: u128,
}

/// The byte at place `at` of the stream of `seed`.
pub uninterp spec fn stream_byte(seed: Seq<u8>, at: int) -> u8;

/// The logarithm of the group element that 64 bytes are mapped to: what
/// `RistrettoPoint::from_uniform_bytes` returns, written as a multiple of the base point.
pub uninterp spec fn uniform_log(bytes: Seq<u8>) -> int;

/// The place in the stream of the `i`-th byte from word `pos` on.
pub open spec fn stream_place(pos: int, i: int) -> int {
    (4 * pos + i) % (4 * period())
}

/// The `n` bytes of the stream of `seed` that start at word `pos`.
pub open spec fn stream(seed: Seq<u8>, pos: int, n: nat) -> Seq<u8> {
    Seq::new(n, |i: int| stream_byte(seed, stream_place(pos, i)))
}

/// The 32 bytes of the stream of `seed` that start at word `pos`.
pub open spec fn stream_bytes(seed: Seq<u8>, pos: int) -> Seq<u8> {
    stream(seed, pos, 32)
}

/// The word of the stream of `seed` at `pos`.
pub open spec fn stream_word(seed: Seq<u8>, pos: int) -> int {
    le_value(stream(seed, pos, 4))
}

/// The value of the scalar that is drawn from the stream of `seed` at word `pos`.
pub open spec fn stream_scalar(seed: Seq<u8>, pos: int) -> int {
    le_value(stream(seed, pos, 64)) % order()
}

/// The logarithm of the group element that is drawn from the stream of `seed` at
/// word `pos`.
pub open spec fn stream_point(seed: Seq<u8>, pos: int) -> int {
    uniform_log(stream(seed, pos, 64))
}

impl SeededRng {
    pub open spec fn wf(self) -> bool {
        self.word_pos < period()
    }

    /// The position `n` words further on.
    pub open spec fn pos_after(self, n: int) -> int {
        (self.word_pos + n) % period()
    }

    /// The generator `n` words further on.
    pub open spec fn advanced(self, n: int) -> Self {
        SeededRng { seed: self.seed, word_pos: self.pos_after(n) as u128 }
    }

    /// The generator at the start of the stream of `seed`.
    pub fn from_seed(seed: [u8; 32]) -> (res: Self)
        ensures
            res.wf(),
            res.seed == seed,
            res.word_pos == 0,
    {
        SeededRng { seed, word_pos: 0 }
    }
}

/// Two steps through the stream are one.
pub proof fn lemma_advanced_twice(rng: SeededRng, n: int, k: int)
    ensures
        rng.advanced(n).advanced(k) == rng.advanced(n + k),
        rng.advanced(n).pos_after(k) == rng.pos_after(n + k),
        rng.advanced(n).word_pos == rng.pos_after(n),
{
    let w = rng.word_pos + n;
    vstd::arithmetic::div_mod::lemma_add_mod_noop(w, k, period());
    vstd::arithmetic::div_mod::lemma_add_mod_noop(w % period(), k, period());
    vstd::arithmetic::div_mod::lemma_mod_twice(w, period());
}

/// `ChaCha20Rng::fill_bytes` on a buffer of 32 bytes, for the generator of this seed
/// at this position: eight words of the stream, each by its little-endian bytes. Returns
/// the bytes and the new position.
#[verifier::external_body]
pub(crate) fn draw_bytes(seed: [u8; 32], pos: u128) -> (res: ([u8; 32], u128))
    requires
        pos < period(),
    ensures
        forall|i: int|
            0 <= i < 32 ==> #[trigger] res.0@[i] == stream_byte(seed@, stream_place(pos as int, i)),
        res.1 == (pos + 8) % period(),
{
    let mut rng = ChaCha20Rng::from_seed(seed);
    rng.set_word_pos(pos);
    let mut out = [0u8; 32];
    rng.fill_bytes(&mut out);
    (out, rng.get_word_pos())
}

/// `ChaCha20Rng::next_u32`, for the generator of this seed at this position: one word
/// of the stream, whose little-endian bytes are those that filling a buffer gives. Returns
/// the word and the new position.
#[verifier::external_body]
pub(crate) fn draw_word(seed: [u8; 32], pos: u128) -> (res: (u32, u128))
    requires
        pos < period(),
    ensures
        res.0 == le_value(stream(seed@, pos as int, 4)),
        res.1 == (pos + 1) % period(),
{
    let mut rng = ChaCha20Rng::from_seed(seed);
    rng.set_word_pos(pos);
    let word = rng.next_u32();
    (word, rng.get_word_pos())
}

/// `Scalar::random` with the generator of this seed at this position: the little-endian
/// value of the next 64 bytes modulo the order of the group. Returns the scalar and the new
/// position.
#[verifier::external_body]
pub(crate) fn draw_scalar(seed: [u8; 32], pos: u128) -> (res: (Scalar, u128))
    requires
        pos < period(),
    ensures
        res.0.wf(),
        res.0.value() == le_value(stream(seed@, pos as int, 64)) % order(),
        res.1 == (pos + 16) % period(),
{
    let mut rng = ChaCha20Rng::from_seed(seed);
    rng.set_word_pos(pos);
    let s = DalekScalar::random(&mut rng);
    (Scalar { bytes: s.to_bytes() }, rng.get_word_pos())
}

/// `RistrettoPoint::random` with the generator of this seed at this position: the element
/// that the next 64 bytes are mapped to. Returns the element and the new position.
#[verifier::external_body]
pub(crate) fn draw_point(seed: [u8; 32], pos: u128) -> (res: (Point, u128))
    requires
        pos < period(),
    ensures
        res.0.wf(),
        res.0.log() == uniform_log(stream(seed@, pos as int, 64)),
        res.1 == (pos + 16) % period(),
{
    let mut rng = ChaCha20Rng::from_seed(seed);
    rng.set_word_pos(pos);
    let p = RistrettoPoint::random(&mut rng);
    (Point { bytes: p.compress().to_bytes() }, rng.get_word_pos())
}

impl SeededRng {
    /// Draws 32 bytes.
    pub fn fill_bytes(&mut self) -> (res: [u8; 32])
        requires
            old(self).wf(),
        ensures
            res@ == stream_bytes(old(self).seed@, old(self).word_pos as int),
            *final(self) == old(self).advanced(8),
            final(self).wf(),
    {
        let (out, pos) = draw_bytes(self.seed, self.word_pos);
        assert(out@ =~= stream_bytes(self.seed@, self.word_pos as int));
        self.word_pos = pos;
        out
    }

    /// Draws one word.
    pub fn next_u32(&mut self) -> (res: u32)
        requires
            old(self).wf(),
        ensures
            res == stream_word(old(self).seed@, old(self).word_pos as int),
            *final(self) == old(self).advanced(1),
            final(self).wf(),
    {
        let (word, pos) = draw_word(self.seed, self.word_pos);
        self.word_pos = pos;
        word
    }

    /// Draws a scalar.
    pub fn random_scalar(&mut self) -> (res: Scalar)
        requires
            old(self).wf(),
        ensures
            res.wf(),
            res.value() == stream_scalar(old(self).seed@, old(self).word_pos as int),
            *final(self) == old(self).advanced(16),
            final(self).wf(),
    {
        let (s, pos) = draw_scalar(self.seed, self.word_pos);
        self.word_pos = pos;
        s
    }

    /// Draws a group element.
    pub fn random_point(&mut self) -> (res: Point)
        requires
            old(self).wf(),
        ensures
            res.wf(),
            res.log() == stream_point(old(self).seed@, old(self).word_pos as int),
            *final(self) == old(self).advanced(16),
            final(self).wf(),
    {
        let (p, pos) = draw_point(self.seed, self.word_pos);
        self.word_pos = pos;
        p
    }
}

/// Drawing moves the generator on by the number of words that were drawn, and keeps its seed.
/// The stream starts over after `2^68` words.
pub proof fn law_draws_move_on(rng: SeededRng, n: int)
    requires
        rng.wf(),
        0 <= n < 0x1_0000_0000_0000_0000_0,
    ensures
        rng.advanced(n).seed == rng.seed,
        rng.advanced(n).word_pos == rng.pos_after(n),
        rng.pos_after(n) == (if rng.word_pos + n < 0x1_0000_0000_0000_0000_0 {
            rng.word_pos + n
        } else {
            rng.word_pos + n - 0x1_0000_0000_0000_0000_0
        }),
{
    let w = rng.word_pos + n;
    if w < period() {
        vstd::arithmetic::div_mod::lemma_small_mod(w as nat, period() as nat);
    } else {
        vstd::arithmetic::div_mod::lemma_small_mod((w - period()) as nat, period() as nat);
        vstd::arithmetic::div_mod::lemma_mod_add_multiples_vanish(w - period(), period());
    }
}

/// What is drawn is what stands in the stream, byte for byte, from the position on: a word is
/// four bytes, lowest first, and a scalar the value of 64 bytes, lowest first, reduced. A group
/// element is the one that 64 bytes are mapped to.
pub proof fn law_draws_are_bytes_of_the_stream(seed: Seq<u8>, pos: int, n: nat)
    requires
        0 <= pos,
        4 * pos + n <= 4 * 0x1_0000_0000_0000_0000_0,
    ensures
        stream(seed, pos, n) == Seq::new(n, |i: int| stream_byte(seed, 4 * pos + i)),
        n == 32 ==> stream_bytes(seed, pos) == stream(seed, pos, n),
        n == 4 ==> stream_word(seed, pos) == stream_byte(seed, 4 * pos) + 256 * stream_byte(
            seed,
            4 * pos + 1,
        ) + 0x1_0000 * stream_byte(seed, 4 * pos + 2) + 0x100_0000 * stream_byte(
            seed,
            4 * pos + 3,
        ),
        n == 64 ==> stream_scalar(seed, pos) == le_value(
            Seq::new(64, |i: int| stream_byte(seed, 4 * pos + i)),
        ) % order(),
        n == 64 ==> stream_point(seed, pos) == uniform_log(
            Seq::new(64, |i: int| stream_byte(seed, 4 * pos + i)),
        ),
{
    let bytes = Seq::new(n, |i: int| stream_byte(seed, 4 * pos + i));
    assert forall|i: int| 0 <= i < n implies #[trigger] stream(seed, pos, n)[i] == bytes[i] by {
        vstd::arithmetic::div_mod::lemma_small_mod(
            (4 * pos + i) as nat,
            (4 * period()) as nat,
        );
    }
    assert(stream(seed, pos, n) =~= bytes);
    if n == 4 {
        reveal_with_fuel(le_value, 5);
        let a = bytes.skip(1);
        let b = a.skip(1);
        let c = b.skip(1);
        assert(a[0] == bytes[1] && b[0] == bytes[2] && c[0] == bytes[3]);
        assert(c.skip(1).len() == 0);
        assert(stream(seed, pos, 4) == bytes);
    }
    if n == 64 {
        assert(stream(seed, pos, 64) == bytes);
    }
}

/// Behind its last byte the stream goes on with its first: what stands there is drawn from the
/// start, and all else from where it stands. Words, scalars and group elements are made of four
/// and of 64 bytes in this order.
pub proof fn law_stream_starts_over(seed: Seq<u8>, pos: int, n: nat, i: int)
    requires
        0 <= pos < 0x1_0000_0000_0000_0000_0,
        n <= 4 * 0x1_0000_0000_0000_0000_0,
        0 <= i < n,
    ensures
        stream(seed, pos, n).len() == n,
        stream(seed, pos, n)[i] == stream_byte(
            seed,
            if 4 * pos + i < 4 * 0x1_0000_0000_0000_0000_0 {
                4 * pos + i
            } else {
                4 * pos + i - 4 * 0x1_0000_0000_0000_0000_0
            },
        ),
        stream_bytes(seed, pos) == stream(seed, pos, 32),
        stream_word(seed, pos) == le_value(stream(seed, pos, 4)),
        stream_word(seed, pos) % 2 == stream_byte(seed, 4 * pos) % 2,
        stream_scalar(seed, pos) == le_value(stream(seed, pos, 64)) % order(),
        stream_point(seed, pos) == uniform_log(stream(seed, pos, 64)),
{
    let w = 4 * pos + i;
    let whole = 4 * period();
    if w < whole {
        vstd::arithmetic::div_mod::lemma_small_mod(w as nat, whole as nat);
    } else {
        vstd::arithmetic::div_mod::lemma_small_mod((w - whole) as nat, whole as nat);
        vstd::arithmetic::div_mod::lemma_mod_add_multiples_vanish(w - whole, whole);
    }
    law_draws_are_bytes_of_the_stream(seed, pos, 4);
    let a = stream_byte(seed, 4 * pos) as int;
    let b = stream_byte(seed, 4 * pos + 1) as int;
    let c = stream_byte(seed, 4 * pos + 2) as int;
    let d = stream_byte(seed, 4 * pos + 3) as int;
    assert((a + 256 * b + 0x1_0000 * c + 0x100_0000 * d) % 2 == a % 2);
}

/// Two draws one after the other give what one long draw gives.
pub proof fn law_draws_follow_one_another(seed: Seq<u8>, pos: int, words: nat, n: nat)
    requires
        0 <= pos,
        4 * (pos + words) + n <= 4 * 0x1_0000_0000_0000_0000_0,
    ensures
        stream(seed, pos, 4 * words) + stream(seed, pos + words, n) == stream(
            seed,
            pos,
            4 * words + n,
        ),
{
    law_draws_are_bytes_of_the_stream(seed, pos, 4 * words);
    law_draws_are_bytes_of_the_stream(seed, pos + words, n);
    law_draws_are_bytes_of_the_stream(seed, pos, 4 * words + n);
    assert(stream(seed, pos, 4 * words) + stream(seed, pos + words, n) =~= stream(
        seed,
        pos,
        4 * words + n,
    ));
}

} // verus!
