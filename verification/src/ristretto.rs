//! The Ristretto group and its scalars, as plain 32-byte values.
//!
//! A group element is held as its canonical encoding and a scalar as its
//! canonical little-endian bytes; the arithmetic itself is done by
//! `curve25519_dalek`. The group is cyclic of prime order and the base point
//! generates it, so an element is described by its logarithm: the number by
//! which the base point is multiplied to give it.

use crate::bytes::le_value;
use curve25519_dalek::constants::RISTRETTO_BASEPOINT_POINT;
use curve25519_dalek::ristretto::{CompressedRistretto, RistrettoBasepointTable, RistrettoPoint};
use curve25519_dalek::scalar::Scalar as DalekScalar;
use curve25519_dalek::traits::MultiscalarMul;
use sha2::Sha512;
use vstd::prelude::*;

verus! {

/// The order of the group, `2^252 + 27742317777372353535851937790883648493`.
pub open spec fn order() -> int {
    7237005577332262213973186563042994240857116359379907606001950938285454250989int
}

/// The logarithm of the element that `bytes` encode, if they encode one: what
/// `CompressedRistretto::decompress` returns, written as a multiple of the
/// base point.
pub uninterp spec fn point_log(bytes: Seq<u8>) -> Option<int>;

/// The canonical encoding of `k` times the base point: what
/// `RistrettoPoint::compress` returns for that element.
pub uninterp spec fn point_encoding(k: int) -> Seq<u8>;

/// Whether `bytes` are the canonical encoding of `k` times the base point.
pub open spec fn encodes_point(bytes: Seq<u8>, k: int) -> bool {
    &&& bytes.len() == 32
    &&& 0 <= k < order()
    &&& bytes == point_encoding(k)
    &&& point_log(bytes) == Some(k)
}

/// A group element, by its canonical encoding.
#[derive(Clone, Copy, Debug, PartialEq, Eq)]
pub struct Point {
    pub bytes: [u8; 32],
}

/// A scalar, by its canonical little-endian bytes.
#[derive(Clone, Copy, Debug, PartialEq, Eq)]
pub struct Scalar {
    pub bytes: [u8; 32],
}

impl Point {
    /// The logarithm of this element.
    pub open spec fn log(self) -> int {
        match point_log(self.bytes@) {
            Some(k) => k,
            None => 0,
        }
    }

    /// The bytes are a canonical encoding of an element.
    pub open spec fn wf(self) -> bool {
        encodes_point(self.bytes@, self.log())
    }
}

impl Scalar {
    /// The value of this scalar.
    pub open spec fn value(self) -> int {
        le_value(self.bytes@)
    }

    /// The bytes are reduced modulo the order of the group.
    pub open spec fn wf(self) -> bool {
        0 <= self.value() < order()
    }
}

pub open spec fn all_points(g: Seq<Point>) -> bool {
    forall|i: int| 0 <= i < g.len() ==> (#[trigger] g[i]).wf()
}

pub open spec fn all_scalars(x: Seq<Scalar>) -> bool {
    forall|i: int| 0 <= i < x.len() ==> (#[trigger] x[i]).wf()
}

/// The logarithms of the given elements.
pub open spec fn logs(g: Seq<Point>) -> Seq<int> {
    g.map_values(|p: Point| p.log())
}

/// The values of the given scalars.
pub open spec fn values(x: Seq<Scalar>) -> Seq<int> {
    x.map_values(|s: Scalar| s.value())
}

/// The sum of the products of the entries at the same position.
pub open spec fn dot(a: Seq<int>, b: Seq<int>) -> int
    recommends
        a.len() == b.len(),
    decreases a.len(),
{
    if a.len() == 0 {
        0
    } else {
        dot(a.drop_last(), b.drop_last()) + a.last() * b.last()
    }
}

/// `CompressedRistretto::decompress`: gives the element that `bytes` encode, and
/// `None` on bytes that encode none. An element has one encoding, so what was
/// decoded encodes to the same bytes again.
#[verifier::external_body]
pub(crate) fn decompress(bytes: [u8; 32]) -> (res: Option<Point>)
    ensures
        match res {
            Some(p) => p.bytes == bytes && p.wf(),
            None => point_log(bytes@) is None,
        },
{
    CompressedRistretto(bytes).decompress().map(|p| Point { bytes: p.compress().to_bytes() })
}

impl Point {
    /// The group element that the bytes encode, if they encode one.
    pub fn from_bytes(bytes: [u8; 32]) -> (res: Option<Point>)
        ensures
            match res {
                Some(p) => p.bytes == bytes && p.wf(),
                None => point_log(bytes@) is None,
            },
    {
        decompress(bytes)
    }
}

impl Scalar {
    /// The scalar with these bytes, if they are reduced.
    pub fn from_bytes(bytes: [u8; 32]) -> (res: Option<Scalar>)
        ensures
            match res {
                Some(s) => s.bytes == bytes && s.wf(),
                None => le_value(bytes@) >= order(),
            },
    {
        scalar_from_canonical(bytes)
    }
}

/// `RistrettoPoint::default`: the neutral element, zero times the base point.
#[verifier::external_body]
pub(crate) fn identity() -> (res: Point)
    ensures
        res.bytes@ == point_encoding(0),
        res.wf(),
        res.log() == 0,
{
    Point { bytes: RistrettoPoint::default().compress().to_bytes() }
}

/// `RISTRETTO_BASEPOINT_POINT`: the base point itself.
#[verifier::external_body]
pub(crate) fn basepoint() -> (res: Point)
    ensures
        res.bytes@ == point_encoding(1),
        res.wf(),
        res.log() == 1,
{
    Point { bytes: RISTRETTO_BASEPOINT_POINT.compress().to_bytes() }
}

/// `RistrettoPoint + RistrettoPoint`: the group operation, which adds logarithms
/// modulo the order of the group.
#[verifier::external_body]
pub(crate) fn point_plus(a: &Point, b: &Point) -> (res: Point)
    requires
        a.wf(),
        b.wf(),
    ensures
        res.wf(),
        res.log() == (a.log() + b.log()) % order(),
{
    let a = CompressedRistretto(a.bytes).decompress().unwrap();
    let b = CompressedRistretto(b.bytes).decompress().unwrap();
    Point { bytes: (a + b).compress().to_bytes() }
}

/// `RistrettoPoint - RistrettoPoint`: the group operation with the inverse of `b`,
/// which subtracts logarithms modulo the order of the group.
#[verifier::external_body]
pub(crate) fn point_minus(a: &Point, b: &Point) -> (res: Point)
    requires
        a.wf(),
        b.wf(),
    ensures
        res.wf(),
        res.log() == (a.log() - b.log()) % order(),
{
    let a = CompressedRistretto(a.bytes).decompress().unwrap();
    let b = CompressedRistretto(b.bytes).decompress().unwrap();
    Point { bytes: (a - b).compress().to_bytes() }
}

/// `RistrettoPoint * Scalar`: scalar multiplication, which multiplies the logarithm
/// by the scalar modulo the order of the group.
#[verifier::external_body]
pub(crate) fn point_times(p: &Point, s: &Scalar) -> (res: Point)
    requires
        p.wf(),
        s.wf(),
    ensures
        res.wf(),
        res.log() == (p.log() * s.value()) % order(),
{
    let p = CompressedRistretto(p.bytes).decompress().unwrap();
    let s = DalekScalar::from_canonical_bytes(s.bytes).unwrap();
    Point { bytes: (p * s).compress().to_bytes() }
}

/// `RistrettoBasepointTable::create` and the product of the table with each of the
/// scalars: scalar multiplication of one point by many scalars.
#[verifier::external_body]
pub(crate) fn point_times_each(p: &Point, x: &[Scalar]) -> (res: Vec<Point>)
    requires
        p.wf(),
        all_scalars(x@),
    ensures
        res@.len() == x@.len(),
        all_points(res@),
        forall|i: int|
            0 <= i < x@.len() ==> (#[trigger] res@[i]).log() == (p.log() * x@[i].value()) % order(),
{
    let p = CompressedRistretto(p.bytes).decompress().unwrap();
    let table = RistrettoBasepointTable::create(&p);
    let x = x.iter().map(|s| DalekScalar::from_canonical_bytes(s.bytes).unwrap());
    x.map(|s| Point { bytes: (&table * &s).compress().to_bytes() }).collect()
}

/// `RistrettoPoint::multiscalar_mul`: the sum of the points, each multiplied by the
/// scalar at its position.
#[verifier::external_body]
pub(crate) fn multiscalar_mul(x: &[Scalar], g: &[Point]) -> (res: Point)
    requires
        x@.len() == g@.len(),
        all_scalars(x@),
        all_points(g@),
    ensures
        res.wf(),
        res.log() == dot(logs(g@), values(x@)) % order(),
{
    let x = x.iter().map(|s| DalekScalar::from_canonical_bytes(s.bytes).unwrap());
    let g = g.iter().map(|p| CompressedRistretto(p.bytes).decompress().unwrap());
    Point { bytes: RistrettoPoint::multiscalar_mul(x, g).compress().to_bytes() }
}

/// `RistrettoPoint == RistrettoPoint`: whether both are the same element.
#[verifier::external_body]
pub(crate) fn same_point(a: &Point, b: &Point) -> (res: bool)
    requires
        a.wf(),
        b.wf(),
    ensures
        res == (a.log() == b.log()),
{
    CompressedRistretto(a.bytes).decompress().unwrap()
        == CompressedRistretto(b.bytes).decompress().unwrap()
}

/// The logarithm of the element to which `input` is hashed: what
/// `RistrettoPoint::hash_from_bytes` returns with SHA-512.
pub uninterp spec fn hashed_log(input: Seq<u8>) -> int;

/// `RistrettoPoint::hash_from_bytes::<Sha512>`: hashes `input` to a group element
/// that depends on `input` alone.
#[verifier::external_body]
pub(crate) fn hash_to_point(input: &[u8]) -> (res: Point)
    ensures
        res.wf(),
        res.log() == hashed_log(input@),
{
    Point { bytes: RistrettoPoint::hash_from_bytes::<Sha512>(input).compress().to_bytes() }
}

/// `Scalar::from_canonical_bytes`: the scalar with these bytes if they are reduced
/// modulo the order of the group, and nothing otherwise.
#[verifier::external_body]
pub(crate) fn scalar_from_canonical(bytes: [u8; 32]) -> (res: Option<Scalar>)
    ensures
        match res {
            Some(s) => s.bytes == bytes && s.wf(),
            None => le_value(bytes@) >= order(),
        },
{
    Option::from(DalekScalar::from_canonical_bytes(bytes)).map(
        |s: DalekScalar| Scalar { bytes: s.to_bytes() },
    )
}

/// `Scalar::from_bytes_mod_order_wide`: the little-endian value of `bytes` modulo
/// the order of the group.
#[verifier::external_body]
pub(crate) fn scalar_from_wide(bytes: &[u8; 64]) -> (res: Scalar)
    ensures
        res.wf(),
        res.value() == le_value(bytes@) % order(),
{
    Scalar { bytes: DalekScalar::from_bytes_mod_order_wide(bytes).to_bytes() }
}

/// `Scalar::from(u64)`: the scalar with the value of `n`.
#[verifier::external_body]
pub(crate) fn scalar_from_u64(n: u64) -> (res: Scalar)
    ensures
        res.wf(),
        res.value() == n,
{
    Scalar { bytes: DalekScalar::from(n).to_bytes() }
}

/// `Scalar + Scalar`: addition modulo the order of the group.
#[verifier::external_body]
pub(crate) fn scalar_plus(a: &Scalar, b: &Scalar) -> (res: Scalar)
    requires
        a.wf(),
        b.wf(),
    ensures
        res.wf(),
        res.value() == (a.value() + b.value()) % order(),
{
    let a = DalekScalar::from_canonical_bytes(a.bytes).unwrap();
    let b = DalekScalar::from_canonical_bytes(b.bytes).unwrap();
    Scalar { bytes: (a + b).to_bytes() }
}

/// A group element is known by the logarithm of what its bytes encode, and a scalar by the
/// little-endian value of its bytes; lists of them are known entry by entry. A sum of products
/// grows by the product of what is added at the end.
pub proof fn law_elements_are_known_by_their_bytes(
    p: Point,
    s: Scalar,
    g: Seq<Point>,
    x: Seq<Scalar>,
    i: int,
    a: Seq<int>,
    b: Seq<int>,
    u: int,
    v: int,
)
    requires
        a.len() == b.len(),
    ensures
        p.wf() ==> point_log(p.bytes@) == Some(p.log()) && 0 <= p.log() < order() && p.bytes@
            == point_encoding(p.log()),
        s.value() == le_value(s.bytes@),
        s.wf() <==> 0 <= le_value(s.bytes@) < order(),
        logs(g).len() == g.len(),
        values(x).len() == x.len(),
        0 <= i < g.len() && all_points(g) ==> point_log(g[i].bytes@) == Some(logs(g)[i]),
        0 <= i < x.len() ==> values(x)[i] == le_value(x[i].bytes@),
        0 <= i < x.len() && all_scalars(x) ==> le_value(x[i].bytes@) < order(),
        dot(a.push(u), b.push(v)) == dot(a, b) + u * v,
        a.len() == 0 ==> dot(a, b) == 0,
{
    assert(a.push(u).drop_last() =~= a);
    assert(b.push(v).drop_last() =~= b);
    if 0 <= i < g.len() && all_points(g) {
        assert(g[i].wf());
    }
    if 0 <= i < x.len() && all_scalars(x) {
        assert(x[i].wf());
    }
}

} // verus!
