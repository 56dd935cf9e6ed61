//! Groth16 proofs over BN254: reading keys and proofs, and verifying them.

use crate::blob::Groth16Proof;
use crate::text::{decimal_value, same_text};
use crate::types::{
    be_bytes, be_value, bn254_order, lemma_be_bytes_len, lemma_leading_zeros, lemma_pow_256_32, two_256,
    Address, B256, U256,
};
use ark_bn254::{Bn254, Fr};
use ark_ec::pairing::Pairing;
use ark_ff::{BigInt, PrimeField};
use ark_groth16::Groth16;
use ark_serialize::CanonicalDeserialize;
use ark_snark::SNARK;
use vstd::arithmetic::div_mod::{lemma_mod_multiples_vanish, lemma_small_mod};
use vstd::arithmetic::power::pow;
use vstd::prelude::*;

verus! {

/// Order of the field that the coordinates of BN254 points are taken from.
pub open spec fn base_order() -> U256 {
    U256 {
        l0: 0x3C208C16D87CFD47,
        l1: 0x97816A916871CA8D,
        l2: 0xB85045B68181585D,
        l3: 0x30644E72E131A029,
    }
}

/// Whether coordinates satisfy the equation of the first group, `y^2 = x^3 + 3`.
pub open spec fn on_g1(x: nat, y: nat) -> bool {
    (y * y - x * x * x - 3) % base_order()@ as int == 0
}

/// The first part of the constant in the equation of the second group.
pub open spec fn g2_b0() -> U256 {
    U256 {
        l0: 0x3267E6DC24A138E5,
        l1: 0xB5B4C5E559DBEFA3,
        l2: 0x81BE18991BE06AC3,
        l3: 0x2B149D40CEB8AAAE,
    }
}

/// The second part of the constant in the equation of the second group.
pub open spec fn g2_b1() -> U256 {
    U256 {
        l0: 0xE4A2BD0685C315D2,
        l1: 0xA74FA084E52D1852,
        l2: 0xCD2CAFADEED8FDF4,
        l3: 0x009713B03AF0FED4,
    }
}

/// Whether coordinates satisfy the equation of the second group, `y^2 = x^3 + b`, where
/// each is a pair `(c0, c1)` that stands for `c0 + c1 u` with `u^2 = -1`.
pub open spec fn on_g2(x0: nat, x1: nat, y0: nat, y1: nat) -> bool {
    let q = base_order()@ as int;
    &&& (y0 * y0 - y1 * y1 - (x0 * x0 * x0 - 3 * x0 * x1 * x1) - g2_b0()@) % q == 0
    &&& (2 * y0 * y1 - (3 * x0 * x0 * x1 - x1 * x1 * x1) - g2_b1()@) % q == 0
}

/// Why a key or a proof was not read, or not verified.
#[derive(Clone, Copy, Debug, PartialEq, Eq, Structural)]
pub enum Groth16Error {
    /// The key is for another proof system than Groth16.
    WrongProtocol,
    /// The key is for another curve than BN254.
    WrongCurve,
    TooFewG1Coordinates,
    TooFewG2Coordinates,
    /// A coordinate is no decimal number.
    InvalidDecimal,
    /// A coordinate is no element of the base field.
    InvalidCoordinate,
    G1NotOnCurve,
    G2NotOnCurve,
    /// The verification itself failed.
    Verification,
}

/// A point of the first group.
#[derive(Clone, Copy, Debug)]
pub enum G1Point {
    Infinity,
    Affine { x: U256, y: U256 },
}

/// A point of the second group. A coordinate `(c0, c1)` is written in two fields.
#[derive(Clone, Copy, Debug)]
pub enum G2Point {
    Infinity,
    Affine { x0: U256, x1: U256, y0: U256, y1: U256 },
}

/// A point of the first group, in numbers.
pub enum G1View {
    Infinity,
    Affine { x: nat, y: nat },
}

/// A point of the second group, in numbers.
pub enum G2View {
    Infinity,
    Affine { x0: nat, x1: nat, y0: nat, y1: nat },
}

impl View for G1Point {
    type V = G1View;

    open spec fn view(&self) -> G1View {
        match *self {
            G1Point::Infinity => G1View::Infinity,
            G1Point::Affine { x, y } => G1View::Affine { x: x@, y: y@ },
        }
    }
}

impl View for G2Point {
    type V = G2View;

    open spec fn view(&self) -> G2View {
        match *self {
            G2Point::Infinity => G2View::Infinity,
            G2Point::Affine { x0, x1, y0, y1 } => G2View::Affine {
                x0: x0@,
                x1: x1@,
                y0: y0@,
                y1: y1@,
            },
        }
    }
}

/// The point of the first group with given coordinates. Zeros stand for the point at
/// infinity.
pub open spec fn g1_of(x: nat, y: nat) -> Result<G1View, Groth16Error> {
    if x >= base_order()@ || y >= base_order()@ {
        Err(Groth16Error::InvalidCoordinate)
    } else if x == 0 && y == 0 {
        Ok(G1View::Infinity)
    } else if on_g1(x, y) {
        Ok(G1View::Affine { x, y })
    } else {
        Err(Groth16Error::G1NotOnCurve)
    }
}

/// The point of the second group with given coordinates. Zeros stand for the point at
/// infinity.
pub open spec fn g2_of(x0: nat, x1: nat, y0: nat, y1: nat) -> Result<G2View, Groth16Error> {
    let q = base_order()@;
    if x0 >= q || x1 >= q || y0 >= q || y1 >= q {
        Err(Groth16Error::InvalidCoordinate)
    } else if x0 == 0 && x1 == 0 && y0 == 0 && y1 == 0 {
        Ok(G2View::Infinity)
    } else if on_g2(x0, x1, y0, y1) {
        Ok(G2View::Affine { x0, x1, y0, y1 })
    } else {
        Err(Groth16Error::G2NotOnCurve)
    }
}

/// `ark_bn254::Fq::deserialize_uncompressed` on the 32 little-endian bytes of a number:
/// the element of the base field, where the number is below its order.
#[verifier::external_body]
fn base_element(value: &U256) -> (r: Option<U256>)
    ensures
        r is Some <==> value@ < base_order()@,
        r matches Some(v) ==> v@ == value@,
{
    let v = alloy_primitives::U256::from_limbs([value.l0, value.l1, value.l2, value.l3]);
    let e = ark_bn254::Fq::deserialize_uncompressed(&v.to_le_bytes::<32>()[..]).ok()?;
    let [l0, l1, l2, l3] = e.into_bigint().0;
    Some(U256 { l0, l1, l2, l3 })
}

/// `ark_bn254::G1Affine::is_on_curve`: whether coordinates satisfy the equation of the
/// first group.
#[verifier::external_body]
fn g1_is_on_curve(x: &U256, y: &U256) -> (r: bool)
    requires
        x@ < base_order()@,
        y@ < base_order()@,
    ensures
        r == on_g1(x@, y@),
{
    let x = ark_bn254::Fq::from(ark_ff::BigInt([x.l0, x.l1, x.l2, x.l3]));
    let y = ark_bn254::Fq::from(ark_ff::BigInt([y.l0, y.l1, y.l2, y.l3]));
    ark_bn254::G1Affine::new_unchecked(x, y).is_on_curve()
}

/// `ark_bn254::G2Affine::is_on_curve`: whether coordinates satisfy the equation of the
/// second group.
#[verifier::external_body]
fn g2_is_on_curve(x0: &U256, x1: &U256, y0: &U256, y1: &U256) -> (r: bool)
    requires
        x0@ < base_order()@,
        x1@ < base_order()@,
        y0@ < base_order()@,
        y1@ < base_order()@,
    ensures
        r == on_g2(x0@, x1@, y0@, y1@),
{
    let fq = |v: &U256| ark_bn254::Fq::from(ark_ff::BigInt([v.l0, v.l1, v.l2, v.l3]));
    let x = ark_bn254::Fq2::new(fq(x0), fq(x1));
    let y = ark_bn254::Fq2::new(fq(y0), fq(y1));
    ark_bn254::G2Affine::new_unchecked(x, y).is_on_curve()
}

/// `ark_bn254::Fr::from_le_bytes_mod_order`: the number that bytes spell, least
/// significant first, reduced modulo the order of the scalar field.
#[verifier::external_body]
fn scalar_from_le_bytes(bytes: &[u8; 32]) -> (r: U256)
    ensures
        r@ == be_value(bytes@.reverse()) % bn254_order()@,
{
    let [l0, l1, l2, l3] = ark_bn254::Fr::from_le_bytes_mod_order(bytes).into_bigint().0;
    U256 { l0, l1, l2, l3 }
}

/// `num_bigint::BigUint::from_str` and `BigUint::to_bytes_le`: the bytes, least significant
/// first, of the number that text spells.
#[verifier::external_body]
fn decimal_bytes(text: &str) -> (r: Option<Vec<u8>>)
    ensures
        r is Some <==> decimal_value(text@) is Some,
        r matches Some(b) ==> decimal_value(text@) == Some(be_value(b@.reverse())),
{
    let value: num_bigint::BigUint = text.parse().ok()?;
    Some(value.to_bytes_le())
}

/// Whether a point of the first group and one of the second have a pairing. Both are given in
/// the uncompressed form of `ark_serialize`.
pub uninterp spec fn pairing_exists(a: Seq<u8>, b: Seq<u8>) -> bool;

/// What the Groth16 verification of a proof says; nothing where it cannot be carried out.
/// Key and proof are given in the uncompressed form of `ark_serialize`.
pub uninterp spec fn groth16_verdict(vk: Seq<u8>, inputs: Seq<nat>, proof: Seq<u8>) -> Option<bool>;

/// The values of a list of numbers.
pub open spec fn values_of(list: Seq<U256>) -> Seq<nat> {
    Seq::new(list.len(), |i: int| list[i]@)
}

/// `ark_ec::pairing::Pairing::final_exponentiation` for `Bn254`, on the Miller loop over two
/// points that `ark_serialize` reads from their uncompressed forms: whether it gives a
/// result. It gives none where a form cannot be read.
#[verifier::external_body]
fn has_pairing(a: &Vec<u8>, b: &Vec<u8>) -> (r: bool)
    ensures
        r == pairing_exists(a@, b@),
{
    let a = ark_bn254::G1Affine::deserialize_uncompressed_unchecked(&a[..]);
    let b = ark_bn254::G2Affine::deserialize_uncompressed_unchecked(&b[..]);
    match (a, b) {
        (Ok(a), Ok(b)) => Bn254::final_exponentiation(Bn254::multi_miller_loop([a], [b])).is_some(),
        _ => false,
    }
}

/// Whether bytes are the uncompressed form of a key with so many points in its list, of which
/// the first two points have a pairing.
pub open spec fn spells_key(bytes: Seq<u8>, points: nat) -> bool {
    exists|key: KeyView| #[trigger]
        key_bytes(key) == bytes && key.gamma_abc_g1.len() == points && pairing_exists(
            g1_bytes(key.alpha_g1),
            g2_bytes(key.beta_g2),
        )
}

/// Whether bytes are the uncompressed form of a proof.
pub open spec fn spells_proof(bytes: Seq<u8>) -> bool {
    exists|points: ProofView| #[trigger] proof_bytes(points) == bytes
}

/// `ark_groth16::Groth16::<Bn254>::verify_with_processed_vk`, with the key that
/// `ark_groth16::prepare_verifying_key` prepares, on a key and a proof that `ark_serialize`
/// reads from their uncompressed forms: whether the proof is valid for the public inputs;
/// nothing where one of the forms cannot be read, or where the verification returns an
/// error. A key whose first two points have no pairing is not prepared.
#[verifier::external_body]
fn groth16_check(vk: &Vec<u8>, inputs: &Vec<U256>, proof: &Vec<u8>) -> (r: Option<bool>)
    requires
        inputs@.len() <= 7,
        forall|i: int| 0 <= i < inputs@.len() ==> (#[trigger] inputs@[i])@ < bn254_order()@,
        spells_key(vk@, inputs@.len() + 1),
        spells_proof(proof@),
    ensures
        r == groth16_verdict(vk@, values_of(inputs@), proof@),
{
    let vk = ark_groth16::VerifyingKey::deserialize_uncompressed_unchecked(&vk[..]).ok()?;
    let proof = ark_groth16::Proof::deserialize_uncompressed_unchecked(&proof[..]).ok()?;
    let scalar = |v: &U256| Fr::from(BigInt([v.l0, v.l1, v.l2, v.l3]));
    let inputs: Vec<Fr> = inputs.iter().map(scalar).collect();
    let pvk = ark_groth16::prepare_verifying_key(&vk);
    Groth16::<Bn254>::verify_with_processed_vk(&pvk, &inputs, &proof).ok()
}

/// Checks a coordinate of a point.
fn coordinate(value: &U256) -> (r: Result<U256, Groth16Error>)
    ensures
        r is Ok <==> value@ < base_order()@,
        r matches Ok(v) ==> v@ == value@,
        r matches Err(e) ==> e == Groth16Error::InvalidCoordinate,
{
    match base_element(value) {
        Some(v) => Ok(v),
        None => Err(Groth16Error::InvalidCoordinate),
    }
}

/// The point of the first group with given coordinates.
fn g1_from_xy(x: &U256, y: &U256) -> (r: Result<G1Point, Groth16Error>)
    ensures
        r matches Ok(p) ==> g1_of(x@, y@) == Ok::<_, Groth16Error>(p@),
        r matches Err(e) ==> g1_of(x@, y@) == Err::<G1View, _>(e),
{
    let x = match coordinate(x) {
        Ok(x) => x,
        Err(e) => {
            return Err(e);
        },
    };
    let y = match coordinate(y) {
        Ok(y) => y,
        Err(e) => {
            return Err(e);
        },
    };
    if x.is_zero() && y.is_zero() {
        return Ok(G1Point::Infinity);
    }
    if g1_is_on_curve(&x, &y) {
        Ok(G1Point::Affine { x, y })
    } else {
        Err(Groth16Error::G1NotOnCurve)
    }
}

/// The point of the second group with given coordinates.
fn g2_from_xy(x: (&U256, &U256), y: (&U256, &U256)) -> (r: Result<G2Point, Groth16Error>)
    ensures
        r matches Ok(p) ==> g2_of(x.0@, x.1@, y.0@, y.1@) == Ok::<_, Groth16Error>(p@),
        r matches Err(e) ==> g2_of(x.0@, x.1@, y.0@, y.1@) == Err::<G2View, _>(e),
{
    let x0 = match coordinate(x.0) {
        Ok(v) => v,
        Err(e) => {
            return Err(e);
        },
    };
    let x1 = match coordinate(x.1) {
        Ok(v) => v,
        Err(e) => {
            return Err(e);
        },
    };
    let y0 = match coordinate(y.0) {
        Ok(v) => v,
        Err(e) => {
            return Err(e);
        },
    };
    let y1 = match coordinate(y.1) {
        Ok(v) => v,
        Err(e) => {
            return Err(e);
        },
    };
    if x0.is_zero() && x1.is_zero() && y0.is_zero() && y1.is_zero() {
        return Ok(G2Point::Infinity);
    }
    if g2_is_on_curve(&x0, &x1, &y0, &y1) {
        Ok(G2Point::Affine { x0, x1, y0, y1 })
    } else {
        Err(Groth16Error::G2NotOnCurve)
    }
}

/// The points of a proof.
#[derive(Clone, Copy, Debug)]
pub struct ProofPoints {
    pub a: G1Point,
    pub b: G2Point,
    pub c: G1Point,
}

/// The points of a proof, in numbers.
pub struct ProofView {
    pub a: G1View,
    pub b: G2View,
    pub c: G1View,
}

impl View for ProofPoints {
    type V = ProofView;

    open spec fn view(&self) -> ProofView {
        ProofView { a: self.a@, b: self.b@, c: self.c@ }
    }
}

/// The points of a proof that a block holds.
pub open spec fn points_of(proof: Groth16Proof) -> Result<ProofView, Groth16Error> {
    match g1_of(proof.a_x.value(), proof.a_y.value()) {
        Err(e) => Err(e),
        Ok(a) => match g2_of(
            proof.b_x0.value(),
            proof.b_x1.value(),
            proof.b_y0.value(),
            proof.b_y1.value(),
        ) {
            Err(e) => Err(e),
            Ok(b) => match g1_of(proof.c_x.value(), proof.c_y.value()) {
                Err(e) => Err(e),
                Ok(c) => Ok(ProofView { a, b, c }),
            },
        },
    }
}

/// Reads the points of a proof that a block holds.
pub fn blob_proof_to_ark(proof: &Groth16Proof) -> (r: Result<ProofPoints, Groth16Error>)
    ensures
        r matches Ok(p) ==> points_of(*proof) == Ok::<_, Groth16Error>(p@),
        r matches Err(e) ==> points_of(*proof) == Err::<ProofView, _>(e),
{
    let a = match g1_from_xy(
        &U256::from_be_bytes(&proof.a_x),
        &U256::from_be_bytes(&proof.a_y),
    ) {
        Ok(p) => p,
        Err(e) => {
            return Err(e);
        },
    };
    let b = match g2_from_xy(
        (&U256::from_be_bytes(&proof.b_x0), &U256::from_be_bytes(&proof.b_x1)),
        (&U256::from_be_bytes(&proof.b_y0), &U256::from_be_bytes(&proof.b_y1)),
    ) {
        Ok(p) => p,
        Err(e) => {
            return Err(e);
        },
    };
    match g1_from_xy(&U256::from_be_bytes(&proof.c_x), &U256::from_be_bytes(&proof.c_y)) {
        Ok(c) => Ok(ProofPoints { a, b, c }),
        Err(e) => Err(e),
    }
}

/// The 32 bytes of a number, least significant first.
pub open spec fn le_bytes(value: nat) -> Seq<u8> {
    be_bytes(value, 32).reverse()
}

/// `len` zeros with the mark of the point at infinity in the last.
pub open spec fn infinity_bytes(len: nat) -> Seq<u8> {
    Seq::new((len - 1) as nat, |i: int| 0u8).push(0x40)
}

/// The uncompressed form of a point of the first group.
pub open spec fn g1_bytes(p: G1View) -> Seq<u8> {
    match p {
        G1View::Infinity => infinity_bytes(64),
        G1View::Affine { x, y } => le_bytes(x) + le_bytes(y),
    }
}

/// The uncompressed form of a point of the second group.
pub open spec fn g2_bytes(p: G2View) -> Seq<u8> {
    match p {
        G2View::Infinity => infinity_bytes(128),
        G2View::Affine { x0, x1, y0, y1 } => le_bytes(x0) + le_bytes(x1) + le_bytes(y0) + le_bytes(
            y1,
        ),
    }
}

/// The uncompressed form of a proof.
pub open spec fn proof_bytes(p: ProofView) -> Seq<u8> {
    g1_bytes(p.a) + g2_bytes(p.b) + g1_bytes(p.c)
}

/// A verification key, in numbers.
#[verifier::ext_equal]
pub struct KeyView {
    pub alpha_g1: G1View,
    pub beta_g2: G2View,
    pub gamma_g2: G2View,
    pub delta_g2: G2View,
    pub gamma_abc_g1: Seq<G1View>,
}

/// The uncompressed forms of a list of points, one after another.
pub open spec fn points_bytes(points: Seq<G1View>) -> Seq<u8>
    decreases points.len(),
{
    if points.len() == 0 {
        Seq::empty()
    } else {
        points_bytes(points.drop_last()) + g1_bytes(points.last())
    }
}

/// The uncompressed form of a verification key: its points, the list being preceded by
/// its length in eight bytes, least significant first.
pub open spec fn key_bytes(key: KeyView) -> Seq<u8> {
    g1_bytes(key.alpha_g1) + g2_bytes(key.beta_g2) + g2_bytes(key.gamma_g2) + g2_bytes(
        key.delta_g2,
    ) + be_bytes(key.gamma_abc_g1.len(), 8).reverse() + points_bytes(key.gamma_abc_g1)
}

/// A verification key.
#[derive(Debug)]
pub struct VerifyingKey {
    pub alpha_g1: G1Point,
    pub beta_g2: G2Point,
    pub gamma_g2: G2Point,
    pub delta_g2: G2Point,
    pub gamma_abc_g1: Vec<G1Point>,
}

/// The points of a list, in numbers.
pub open spec fn g1_views(points: Seq<G1Point>) -> Seq<G1View> {
    Seq::new(points.len(), |i: int| points[i]@)
}

impl View for VerifyingKey {
    type V = KeyView;

    open spec fn view(&self) -> KeyView {
        KeyView {
            alpha_g1: self.alpha_g1@,
            beta_g2: self.beta_g2@,
            gamma_g2: self.gamma_g2@,
            delta_g2: self.delta_g2@,
            gamma_abc_g1: g1_views(self.gamma_abc_g1@),
        }
    }
}

/// Appends the bytes of a number, least significant first.
fn put_number(out: &mut Vec<u8>, value: &U256)
    ensures
        final(out)@ == old(out)@ + le_bytes(value@),
{
    let bytes = value.to_be_bytes();
    let ghost start = out@;
    let mut i: usize = 0;
    while i < 32
        invariant
            i <= 32,
            bytes@.len() == 32,
            out@ == start + bytes@.reverse().take(i as int),
        decreases 32 - i,
    {
        out.push(bytes.0[31 - i]);
        i += 1;
        assert(out@ =~= start + bytes@.reverse().take(i as int));
    }
    assert(bytes@.reverse().take(32) =~= bytes@.reverse());
}

/// Appends the mark of the point at infinity.
fn put_infinity(out: &mut Vec<u8>, len: usize)
    requires
        len > 0,
    ensures
        final(out)@ == old(out)@ + infinity_bytes(len as nat),
{
    let ghost start = out@;
    let mut i: usize = 0;
    while i < len - 1
        invariant
            i <= len - 1,
            out@ == start + Seq::new(i as nat, |k: int| 0u8),
        decreases len - i,
    {
        out.push(0);
        i += 1;
        assert(out@ =~= start + Seq::new(i as nat, |k: int| 0u8));
    }
    out.push(0x40);
    assert(out@ =~= start + infinity_bytes(len as nat));
}

/// Appends a point of the first group.
fn put_g1(out: &mut Vec<u8>, p: &G1Point)
    ensures
        final(out)@ == old(out)@ + g1_bytes(p@),
{
    match p {
        G1Point::Infinity => put_infinity(out, 64),
        G1Point::Affine { x, y } => {
            let ghost start = out@;
            put_number(out, x);
            put_number(out, y);
            assert(out@ =~= start + g1_bytes(p@));
        },
    }
}

/// Appends a point of the second group.
fn put_g2(out: &mut Vec<u8>, p: &G2Point)
    ensures
        final(out)@ == old(out)@ + g2_bytes(p@),
{
    match p {
        G2Point::Infinity => put_infinity(out, 128),
        G2Point::Affine { x0, x1, y0, y1 } => {
            let ghost start = out@;
            put_number(out, x0);
            put_number(out, x1);
            put_number(out, y0);
            put_number(out, y1);
            assert(out@ =~= start + g2_bytes(p@));
        },
    }
}

impl ProofPoints {
    /// The uncompressed form of the proof.
    pub fn to_bytes(&self) -> (r: Vec<u8>)
        ensures
            r@ == proof_bytes(self@),
    {
        let mut out: Vec<u8> = Vec::new();
        put_g1(&mut out, &self.a);
        put_g2(&mut out, &self.b);
        put_g1(&mut out, &self.c);
        assert(out@ =~= proof_bytes(self@));
        out
    }
}

impl VerifyingKey {
    /// The uncompressed form of the key.
    pub fn to_bytes(&self) -> (r: Vec<u8>)
        ensures
            r@ == key_bytes(self@),
    {
        let mut out: Vec<u8> = Vec::new();
        put_g1(&mut out, &self.alpha_g1);
        put_g2(&mut out, &self.beta_g2);
        put_g2(&mut out, &self.gamma_g2);
        put_g2(&mut out, &self.delta_g2);
        let ghost points = out@;
        let mut rest: u64 = self.gamma_abc_g1.len() as u64;
        let mut i: usize = 0;
        let ghost n = self.gamma_abc_g1@.len();
        proof {
            lemma_be_bytes_len(n, 8);
        }
        assert(be_bytes(n, 8).reverse().take(0) =~= Seq::empty());
        assert(out@ =~= points + be_bytes(n, 8).reverse().take(0));
        assert(be_bytes(n, 8) =~= be_bytes(rest as nat, 8) + be_bytes(n, 8).skip(8));
        while i < 8
            invariant
                i <= 8,
                be_bytes(n, 8).len() == 8,
                be_bytes(n, 8) == be_bytes(rest as nat, (8 - i) as nat) + be_bytes(n, 8).skip(
                    8 - i,
                ),
                out@ == points + be_bytes(n, 8).reverse().take(i as int),
            decreases 8 - i,
        {
            proof {
                lemma_be_bytes_len(rest as nat, (8 - i) as nat);
                lemma_be_bytes_len(rest as nat / 256, (7 - i) as nat);
                let all = be_bytes(n, 8);
                assert(all[7 - i] == (rest % 256) as u8);
                assert(all =~= be_bytes(rest as nat / 256, (7 - i) as nat) + all.skip(7 - i));
                assert(all.reverse().take(i + 1) =~= all.reverse().take(i as int).push(
                    all.reverse()[i as int],
                ));
            }
            out.push((rest % 256) as u8);
            rest = rest / 256;
            i += 1;
        }
        assert(be_bytes(n, 8).reverse().take(8) =~= be_bytes(n, 8).reverse());
        let ghost head = out@;
        let mut k: usize = 0;
        let ghost views = g1_views(self.gamma_abc_g1@);
        assert(out@ =~= head + points_bytes(views.take(0)));
        while k < self.gamma_abc_g1.len()
            invariant
                k <= self.gamma_abc_g1@.len(),
                views == g1_views(self.gamma_abc_g1@),
                out@ == head + points_bytes(views.take(k as int)),
            decreases self.gamma_abc_g1@.len() - k,
        {
            let ghost before = out@;
            put_g1(&mut out, &self.gamma_abc_g1[k]);
            proof {
                let next = views.take(k + 1);
                assert(next.drop_last() =~= views.take(k as int));
                assert(out@ =~= head + points_bytes(next));
            }
            k += 1;
        }
        assert(views.take(k as int) =~= views);
        assert(out@ =~= key_bytes(self@));
        out
    }
}

/// A verification key as snarkjs writes it down.
#[derive(Debug)]
pub struct SnarkjsVK {
    pub protocol: String,
    pub curve: String,
    pub vk_alpha_1: Vec<String>,
    pub vk_beta_2: Vec<Vec<String>>,
    pub vk_gamma_2: Vec<Vec<String>>,
    pub vk_delta_2: Vec<Vec<String>>,
    pub ic: Vec<Vec<String>>,
}

/// The coordinate that text spells. What is beyond 256 bits of it is lost.
pub open spec fn text_coordinate(text: Seq<char>) -> Result<nat, Groth16Error> {
    match decimal_value(text) {
        None => Err(Groth16Error::InvalidDecimal),
        Some(v) => if v % two_256() < base_order()@ {
            Ok(v % two_256())
        } else {
            Err(Groth16Error::InvalidCoordinate)
        },
    }
}

/// The point of the first group that a list of coordinates spells.
pub open spec fn text_g1(coords: Seq<String>) -> Result<G1View, Groth16Error> {
    if coords.len() < 2 {
        Err(Groth16Error::TooFewG1Coordinates)
    } else {
        match text_coordinate(coords[0]@) {
            Err(e) => Err(e),
            Ok(x) => match text_coordinate(coords[1]@) {
                Err(e) => Err(e),
                Ok(y) => g1_of(x, y),
            },
        }
    }
}

/// The point of the second group that a list of coordinate pairs spells.
pub open spec fn text_g2(coords: Seq<Vec<String>>) -> Result<G2View, Groth16Error> {
    if coords.len() < 2 || coords[0]@.len() < 2 || coords[1]@.len() < 2 {
        Err(Groth16Error::TooFewG2Coordinates)
    } else {
        match text_coordinate(coords[0]@[0]@) {
            Err(e) => Err(e),
            Ok(x0) => match text_coordinate(coords[0]@[1]@) {
                Err(e) => Err(e),
                Ok(x1) => match text_coordinate(coords[1]@[0]@) {
                    Err(e) => Err(e),
                    Ok(y0) => match text_coordinate(coords[1]@[1]@) {
                        Err(e) => Err(e),
                        Ok(y1) => g2_of(x0, x1, y0, y1),
                    },
                },
            },
        }
    }
}

/// The points of the first group that lists of coordinates spell.
pub open spec fn text_points(list: Seq<Vec<String>>) -> Result<Seq<G1View>, Groth16Error>
    decreases list.len(),
{
    if list.len() == 0 {
        Ok(Seq::empty())
    } else {
        match text_points(list.drop_last()) {
            Err(e) => Err(e),
            Ok(points) => match text_g1(list.last()@) {
                Err(e) => Err(e),
                Ok(p) => Ok(points.push(p)),
            },
        }
    }
}

/// The verification key that snarkjs wrote down.
pub open spec fn text_key(vk: SnarkjsVK) -> Result<KeyView, Groth16Error> {
    if vk.protocol@ != "groth16"@ {
        Err(Groth16Error::WrongProtocol)
    } else if vk.curve@ != "bn128"@ {
        Err(Groth16Error::WrongCurve)
    } else {
        match text_g1(vk.vk_alpha_1@) {
            Err(e) => Err(e),
            Ok(alpha_g1) => match text_g2(vk.vk_beta_2@) {
                Err(e) => Err(e),
                Ok(beta_g2) => match text_g2(vk.vk_gamma_2@) {
                    Err(e) => Err(e),
                    Ok(gamma_g2) => match text_g2(vk.vk_delta_2@) {
                        Err(e) => Err(e),
                        Ok(delta_g2) => match text_points(vk.ic@) {
                            Err(e) => Err(e),
                            Ok(gamma_abc_g1) => Ok(
                                KeyView { alpha_g1, beta_g2, gamma_g2, delta_g2, gamma_abc_g1 },
                            ),
                        },
                    },
                },
            },
        }
    }
}

/// The last bytes spell the rest after division by the number that they can count to.
proof fn lemma_low_bytes(high: Seq<u8>, low: Seq<u8>)
    ensures
        be_value(high + low) == be_value(high) * pow(256, low.len()) + be_value(low),
        be_value(low) < pow(256, low.len()),
    decreases low.len(),
{
    reveal(pow);
    if low.len() > 0 {
        lemma_low_bytes(high, low.drop_last());
        assert((high + low).drop_last() =~= high + low.drop_last());
        let p = pow(256, (low.len() - 1) as nat);
        assert(pow(256, low.len()) == 256 * p);
        assert((be_value(high) * p) * 256 == be_value(high) * (256 * p)) by (nonlinear_arith);
    } else {
        assert(high + low =~= high);
    }
}

/// The 32 bytes that a number is cut or filled up to, least significant first, as a
/// number.
fn cut_to_word(bytes: &Vec<u8>) -> (r: U256)
    ensures
        r@ == be_value(bytes@.reverse()) % two_256(),
{
    let mut word = [0u8;32];
    let mut i: usize = 0;
    while i < 32 && i < bytes.len()
        invariant
            i <= 32,
            i <= bytes@.len(),
            forall|j: int| 32 - i <= j < 32 ==> #[trigger] word@[j] == bytes@[31 - j],
            forall|j: int| 0 <= j < 32 - i ==> #[trigger] word@[j] == 0,
        decreases 32 - i,
    {
        word[31 - i] = bytes[i];
        i += 1;
    }
    proof {
        let back = bytes@.reverse();
        lemma_pow_256_32();
        if bytes@.len() >= 32 {
            let high = back.take(back.len() - 32);
            let low = back.skip(back.len() - 32);
            assert(high + low =~= back);
            assert(word@ =~= low);
            lemma_low_bytes(high, low);
            let (h, m) = (be_value(high) as int, two_256() as int);
            assert(be_value(back) == h * m + be_value(low));
            assert(h * m == m * h) by (nonlinear_arith);
            lemma_mod_multiples_vanish(h, be_value(low) as int, m);
            lemma_small_mod(be_value(low), two_256());
        } else {
            let zeros = (32 - bytes@.len()) as nat;
            assert(word@ =~= Seq::new(zeros, |j: int| 0u8) + back);
            lemma_leading_zeros(zeros, back);
            lemma_low_bytes(Seq::empty(), word@);
            assert(Seq::<u8>::empty() + word@ =~= word@);
            lemma_small_mod(be_value(word@), two_256());
        }
    }
    U256::from_be_bytes(&B256(word))
}

/// The coordinate that text spells.
fn parse_field_element(text: &str) -> (r: Result<U256, Groth16Error>)
    ensures
        r matches Ok(v) ==> text_coordinate(text@) == Ok::<nat, Groth16Error>(v@),
        r matches Err(e) ==> text_coordinate(text@) == Err::<nat, _>(e),
{
    match decimal_bytes(text) {
        Some(bytes) => coordinate(&cut_to_word(&bytes)),
        None => Err(Groth16Error::InvalidDecimal),
    }
}

/// The point of the first group that a list of coordinates spells.
fn parse_g1_point(coords: &Vec<String>) -> (r: Result<G1Point, Groth16Error>)
    ensures
        r matches Ok(p) ==> text_g1(coords@) == Ok::<_, Groth16Error>(p@),
        r matches Err(e) ==> text_g1(coords@) == Err::<G1View, _>(e),
{
    if coords.len() < 2 {
        return Err(Groth16Error::TooFewG1Coordinates);
    }
    let x = match parse_field_element(coords[0].as_str()) {
        Ok(x) => x,
        Err(e) => {
            return Err(e);
        },
    };
    match parse_field_element(coords[1].as_str()) {
        Ok(y) => g1_from_xy(&x, &y),
        Err(e) => Err(e),
    }
}

/// The point of the second group that a list of coordinate pairs spells.
fn parse_g2_point(coords: &Vec<Vec<String>>) -> (r: Result<G2Point, Groth16Error>)
    ensures
        r matches Ok(p) ==> text_g2(coords@) == Ok::<_, Groth16Error>(p@),
        r matches Err(e) ==> text_g2(coords@) == Err::<G2View, _>(e),
{
    if coords.len() < 2 {
        return Err(Groth16Error::TooFewG2Coordinates);
    }
    if coords[0].len() < 2 || coords[1].len() < 2 {
        return Err(Groth16Error::TooFewG2Coordinates);
    }
    let x0 = match parse_field_element(coords[0][0].as_str()) {
        Ok(v) => v,
        Err(e) => {
            return Err(e);
        },
    };
    let x1 = match parse_field_element(coords[0][1].as_str()) {
        Ok(v) => v,
        Err(e) => {
            return Err(e);
        },
    };
    let y0 = match parse_field_element(coords[1][0].as_str()) {
        Ok(v) => v,
        Err(e) => {
            return Err(e);
        },
    };
    match parse_field_element(coords[1][1].as_str()) {
        Ok(y1) => g2_from_xy((&x0, &x1), (&y0, &y1)),
        Err(e) => Err(e),
    }
}

/// An error in the front of a list is the error of the whole of it.
proof fn lemma_text_points_err(list: Seq<Vec<String>>, front: int, e: Groth16Error)
    requires
        0 <= front <= list.len(),
        text_points(list.take(front)) == Err::<Seq<G1View>, _>(e),
    ensures
        text_points(list) == Err::<Seq<G1View>, _>(e),
    decreases list.len() - front,
{
    if front < list.len() {
        assert(list.take(front + 1).drop_last() =~= list.take(front));
        lemma_text_points_err(list, front + 1, e);
    } else {
        assert(list.take(front) =~= list);
    }
}

/// Reads a verification key that snarkjs wrote down.
pub fn parse_snarkjs_vk(vk: &SnarkjsVK) -> (r: Result<VerifyingKey, Groth16Error>)
    ensures
        r matches Ok(key) ==> text_key(*vk) == Ok::<_, Groth16Error>(key@),
        r matches Err(e) ==> text_key(*vk) == Err::<KeyView, _>(e),
{
    if !same_text(vk.protocol.as_str(), "groth16") {
        return Err(Groth16Error::WrongProtocol);
    }
    if !same_text(vk.curve.as_str(), "bn128") {
        return Err(Groth16Error::WrongCurve);
    }
    let alpha_g1 = match parse_g1_point(&vk.vk_alpha_1) {
        Ok(p) => p,
        Err(e) => {
            return Err(e);
        },
    };
    let beta_g2 = match parse_g2_point(&vk.vk_beta_2) {
        Ok(p) => p,
        Err(e) => {
            return Err(e);
        },
    };
    let gamma_g2 = match parse_g2_point(&vk.vk_gamma_2) {
        Ok(p) => p,
        Err(e) => {
            return Err(e);
        },
    };
    let delta_g2 = match parse_g2_point(&vk.vk_delta_2) {
        Ok(p) => p,
        Err(e) => {
            return Err(e);
        },
    };
    let mut gamma_abc_g1: Vec<G1Point> = Vec::new();
    let mut i: usize = 0;
    assert(g1_views(gamma_abc_g1@) =~= Seq::empty());
    while i < vk.ic.len()
        invariant
            i <= vk.ic@.len(),
            text_points(vk.ic@.take(i as int)) == Ok::<_, Groth16Error>(g1_views(gamma_abc_g1@)),
            text_key(*vk) == (match text_points(vk.ic@) {
                Err(e) => Err::<KeyView, _>(e),
                Ok(points) => Ok(
                    KeyView {
                        alpha_g1: alpha_g1@,
                        beta_g2: beta_g2@,
                        gamma_g2: gamma_g2@,
                        delta_g2: delta_g2@,
                        gamma_abc_g1: points,
                    },
                ),
            }),
        decreases vk.ic@.len() - i,
    {
        proof {
            assert(vk.ic@.take(i + 1).drop_last() =~= vk.ic@.take(i as int));
        }
        match parse_g1_point(&vk.ic[i]) {
            Ok(p) => {
                let ghost before = gamma_abc_g1@;
                gamma_abc_g1.push(p);
                assert(g1_views(gamma_abc_g1@) =~= g1_views(before).push(p@));
            },
            Err(e) => {
                proof {
                    lemma_text_points_err(vk.ic@, i + 1, e);
                }
                return Err(e);
            },
        }
        i += 1;
    }
    assert(vk.ic@.take(i as int) =~= vk.ic@);
    Ok(VerifyingKey { alpha_g1, beta_g2, gamma_g2, delta_g2, gamma_abc_g1 })
}

/// A word as an element of the scalar field.
pub fn b256_to_fr(value: B256) -> (r: U256)
    ensures
        r@ == value.value() % bn254_order()@,
        r@ < bn254_order()@,
{
    let mut le = [0u8;32];
    let mut i: usize = 0;
    while i < 32
        invariant
            i <= 32,
            forall|j: int| 32 - i <= j < 32 ==> #[trigger] le@[j] == value@[31 - j],
        decreases 32 - i,
    {
        le[31 - i] = value.0[i];
        i += 1;
    }
    proof {
        assert(le@.reverse() =~= value@);
    }
    scalar_from_le_bytes(&le)
}

/// An address as an element of the scalar field.
pub fn address_to_fr(addr: Address) -> (r: U256)
    ensures
        r@ == be_value(addr@) % bn254_order()@,
        r@ < bn254_order()@,
{
    let mut bytes = [0u8;32];
    let mut i: usize = 0;
    while i < 20
        invariant
            i <= 20,
            forall|k: int| 0 <= k < 12 ==> #[trigger] bytes@[k] == 0,
            forall|k: int| 12 <= k < 12 + i ==> #[trigger] bytes@[k] == addr@[k - 12],
        decreases 20 - i,
    {
        bytes[12 + i] = addr.0[i];
        i += 1;
    }
    proof {
        assert(bytes@ =~= Seq::new(12, |k: int| 0u8) + addr@);
        lemma_leading_zeros(12, addr@);
    }
    b256_to_fr(B256(bytes))
}

/// The public inputs of a transfer.
#[derive(Clone, Copy, Debug)]
pub struct TransferPublicInputs {
    pub anchor: B256,
    /// Account that has to authorise the transfer; zero where none has to.
    pub eth_key: Address,
    pub nullifier0: B256,
    pub nullifier1: B256,
    pub leaf0: B256,
    pub leaf1: B256,
    pub leaf2: B256,
}

/// A word as an element of the scalar field.
pub open spec fn scalar_of(word: B256) -> nat {
    word.value() % bn254_order()@
}

/// The public inputs of a transfer, in the order of the circuit: nullifiers, leaves, the
/// anchor and the account.
pub open spec fn transfer_scalars(inputs: TransferPublicInputs) -> Seq<nat> {
    seq![
        scalar_of(inputs.nullifier0),
        scalar_of(inputs.nullifier1),
        scalar_of(inputs.leaf0),
        scalar_of(inputs.leaf1),
        scalar_of(inputs.leaf2),
        scalar_of(inputs.anchor),
        be_value(inputs.eth_key@) % bn254_order()@,
    ]
}

impl TransferPublicInputs {
    /// The public inputs as elements of the scalar field, in the order of the circuit.
    pub fn to_field_elements(&self) -> (r: Vec<U256>)
        ensures
            values_of(r@) == transfer_scalars(*self),
            r@.len() == 7,
            forall|i: int| 0 <= i < r@.len() ==> (#[trigger] r@[i])@ < bn254_order()@,
    {
        let r: Vec<U256> = vec![
            b256_to_fr(self.nullifier0),
            b256_to_fr(self.nullifier1),
            b256_to_fr(self.leaf0),
            b256_to_fr(self.leaf1),
            b256_to_fr(self.leaf2),
            b256_to_fr(self.anchor),
            address_to_fr(self.eth_key),
        ];
        assert(values_of(r@) =~= transfer_scalars(*self));
        r
    }
}

/// The public inputs of a tree update.
#[derive(Clone, Copy, Debug)]
pub struct UpdatePublicInputs {
    pub anchor_before: B256,
    /// Position of the block in the tree of block roots.
    pub block_index: u64,
    pub updates: [B256; 3],
    pub anchor_after: B256,
}

/// The public inputs of a tree update, in the order of the circuit: the anchor after, the
/// anchor before, the leaves, the position.
pub open spec fn update_scalars(inputs: UpdatePublicInputs) -> Seq<nat> {
    seq![
        scalar_of(inputs.anchor_after),
        scalar_of(inputs.anchor_before),
        scalar_of(inputs.updates@[0]),
        scalar_of(inputs.updates@[1]),
        scalar_of(inputs.updates@[2]),
        inputs.block_index as nat,
    ]
}

impl UpdatePublicInputs {
    /// The public inputs as elements of the scalar field, in the order of the circuit.
    pub fn to_field_elements(&self) -> (r: Vec<U256>)
        ensures
            values_of(r@) == update_scalars(*self),
            r@.len() == 6,
            forall|i: int| 0 <= i < r@.len() ==> (#[trigger] r@[i])@ < bn254_order()@,
    {
        let r: Vec<U256> = vec![
            b256_to_fr(self.anchor_after),
            b256_to_fr(self.anchor_before),
            b256_to_fr(self.updates[0]),
            b256_to_fr(self.updates[1]),
            b256_to_fr(self.updates[2]),
            U256::from_u64(self.block_index),
        ];
        assert(values_of(r@) =~= update_scalars(*self));
        r
    }
}

/// What a verification key says of a proof for public inputs. The key has one point more in
/// its list than there are inputs; one that has not, or whose first two points have no
/// pairing, verifies nothing.
pub open spec fn verified(key: KeyView, proof: Groth16Proof, inputs: Seq<nat>) -> Result<
    bool,
    Groth16Error,
> {
    match points_of(proof) {
        Err(e) => Err(e),
        Ok(points) => if key.gamma_abc_g1.len() != inputs.len() + 1 || !pairing_exists(
            g1_bytes(key.alpha_g1),
            g2_bytes(key.beta_g2),
        ) {
            Err(Groth16Error::Verification)
        } else {
            match groth16_verdict(key_bytes(key), inputs, proof_bytes(points)) {
                Some(valid) => Ok(valid),
                None => Err(Groth16Error::Verification),
            }
        },
    }
}

/// Verifies a proof against a key.
fn verify_with_key(key: &VerifyingKey, proof: &Groth16Proof, inputs: &Vec<U256>) -> (r: Result<
    bool,
    Groth16Error,
>)
    requires
        inputs@.len() <= 7,
        forall|i: int| 0 <= i < inputs@.len() ==> (#[trigger] inputs@[i])@ < bn254_order()@,
    ensures
        r == verified(key@, *proof, values_of(inputs@)),
{
    let points = match blob_proof_to_ark(proof) {
        Ok(points) => points,
        Err(e) => {
            return Err(e);
        },
    };
    if key.gamma_abc_g1.len() != inputs.len() + 1 {
        return Err(Groth16Error::Verification);
    }
    let mut alpha: Vec<u8> = Vec::new();
    put_g1(&mut alpha, &key.alpha_g1);
    let mut beta: Vec<u8> = Vec::new();
    put_g2(&mut beta, &key.beta_g2);
    proof {
        assert(alpha@ =~= g1_bytes(key@.alpha_g1));
        assert(beta@ =~= g2_bytes(key@.beta_g2));
    }
    if !has_pairing(&alpha, &beta) {
        return Err(Groth16Error::Verification);
    }
    let vk = key.to_bytes();
    let proof_form = points.to_bytes();
    proof {
        assert(key_bytes(key@) == vk@);
        assert(proof_bytes(points@) == proof_form@);
    }
    match groth16_check(&vk, inputs, &proof_form) {
        Some(valid) => Ok(valid),
        None => Err(Groth16Error::Verification),
    }
}

/// Verifies the proofs of transfers and of tree updates.
#[derive(Debug)]
pub struct Groth16Verifier {
    pub transfer_vk: VerifyingKey,
    pub update_vk: VerifyingKey,
}

impl Groth16Verifier {
    /// A verifier with keys that snarkjs wrote down.
    pub fn new(transfer_vk: &SnarkjsVK, update_vk: &SnarkjsVK) -> (r: Result<
        Groth16Verifier,
        Groth16Error,
    >)
        ensures
            r is Ok <==> text_key(*transfer_vk) is Ok && text_key(*update_vk) is Ok,
            r matches Ok(v) ==> text_key(*transfer_vk) == Ok::<_, Groth16Error>(v.transfer_vk@)
                && text_key(*update_vk) == Ok::<_, Groth16Error>(v.update_vk@),
            r matches Err(e) ==> (if text_key(*transfer_vk) is Err {
                text_key(*transfer_vk) == Err::<KeyView, _>(e)
            } else {
                text_key(*update_vk) == Err::<KeyView, _>(e)
            }),
    {
        let transfer_vk = match parse_snarkjs_vk(transfer_vk) {
            Ok(key) => key,
            Err(e) => {
                return Err(e);
            },
        };
        match parse_snarkjs_vk(update_vk) {
            Ok(update_vk) => Ok(Groth16Verifier { transfer_vk, update_vk }),
            Err(e) => Err(e),
        }
    }

    /// Whether the proof of a transfer is valid. Fails where the proof cannot be read, or
    /// its verification carried out.
    pub fn verify_transfer_proof(
        &self,
        proof: &Groth16Proof,
        public_inputs: &TransferPublicInputs,
    ) -> (r: Result<bool, Groth16Error>)
        ensures
            r == verified(self.transfer_vk@, *proof, transfer_scalars(*public_inputs)),
    {
        verify_with_key(&self.transfer_vk, proof, &public_inputs.to_field_elements())
    }

    /// Whether the proof of a tree update is valid. Fails where the proof cannot be read, or
    /// its verification carried out.
    pub fn verify_update_proof(
        &self,
        proof: &Groth16Proof,
        public_inputs: &UpdatePublicInputs,
    ) -> (r: Result<bool, Groth16Error>)
        ensures
            r == verified(self.update_vk@, *proof, update_scalars(*public_inputs)),
    {
        verify_with_key(&self.update_vk, proof, &public_inputs.to_field_elements())
    }
}

/// The public inputs of a transfer stand in the order of the circuit: the nullifiers, the leaves,
/// the anchor, and the account.
pub proof fn law_transfer_inputs_in_order(inputs: TransferPublicInputs)
    ensures
        transfer_scalars(inputs).len() == 7,
        transfer_scalars(inputs)[0] == be_value(inputs.nullifier0@) % bn254_order()@,
        transfer_scalars(inputs)[1] == be_value(inputs.nullifier1@) % bn254_order()@,
        transfer_scalars(inputs)[2] == be_value(inputs.leaf0@) % bn254_order()@,
        transfer_scalars(inputs)[3] == be_value(inputs.leaf1@) % bn254_order()@,
        transfer_scalars(inputs)[4] == be_value(inputs.leaf2@) % bn254_order()@,
        transfer_scalars(inputs)[5] == be_value(inputs.anchor@) % bn254_order()@,
        transfer_scalars(inputs)[6] == be_value(inputs.eth_key@) % bn254_order()@,
{
}

/// The public inputs of a tree update stand in the order of the circuit: the anchor after it, the
/// anchor before it, the three leaves, and the position of the block.
pub proof fn law_update_inputs_in_order(inputs: UpdatePublicInputs)
    ensures
        update_scalars(inputs).len() == 6,
        update_scalars(inputs)[0] == be_value(inputs.anchor_after@) % bn254_order()@,
        update_scalars(inputs)[1] == be_value(inputs.anchor_before@) % bn254_order()@,
        update_scalars(inputs)[2] == be_value(inputs.updates@[0]@) % bn254_order()@,
        update_scalars(inputs)[3] == be_value(inputs.updates@[1]@) % bn254_order()@,
        update_scalars(inputs)[4] == be_value(inputs.updates@[2]@) % bn254_order()@,
        update_scalars(inputs)[5] == inputs.block_index,
{
}

/// The points of a proof have the coordinates that the proof's words spell, and zeros stand for
/// the point at infinity. A proof is read exactly where every coordinate lies below the order of
/// the field and every point is on its curve.
pub proof fn law_points_have_the_proofs_coordinates(proof: Groth16Proof)
    ensures
        ({
            let q = base_order()@;
            let (ax, ay) = (be_value(proof.a_x@), be_value(proof.a_y@));
            let (bx0, bx1) = (be_value(proof.b_x0@), be_value(proof.b_x1@));
            let (by0, by1) = (be_value(proof.b_y0@), be_value(proof.b_y1@));
            let (cx, cy) = (be_value(proof.c_x@), be_value(proof.c_y@));
            &&& points_of(proof) is Ok <==> {
                &&& ax < q && ay < q && bx0 < q && bx1 < q && by0 < q && by1 < q && cx < q && cy < q
                &&& (ax == 0 && ay == 0) || on_g1(ax, ay)
                &&& (bx0 == 0 && bx1 == 0 && by0 == 0 && by1 == 0) || on_g2(bx0, bx1, by0, by1)
                &&& (cx == 0 && cy == 0) || on_g1(cx, cy)
            }
            &&& points_of(proof) matches Ok(points) ==> {
                &&& points.a == (if ax == 0 && ay == 0 {
                    G1View::Infinity
                } else {
                    G1View::Affine { x: ax, y: ay }
                })
                &&& points.b == (if bx0 == 0 && bx1 == 0 && by0 == 0 && by1 == 0 {
                    G2View::Infinity
                } else {
                    G2View::Affine { x0: bx0, x1: bx1, y0: by0, y1: by1 }
                })
                &&& points.c == (if cx == 0 && cy == 0 {
                    G1View::Infinity
                } else {
                    G1View::Affine { x: cx, y: cy }
                })
            }
        }),
{
}

/// A proof is valid exactly where its points can be read, the key has one point more than there
/// are inputs and its first two points have a pairing, and the verification of that very key,
/// these inputs and these points says so.
pub proof fn law_valid_iff_verification_says_so(
    key: KeyView,
    proof: Groth16Proof,
    inputs: Seq<nat>,
    valid: bool,
)
    ensures
        verified(key, proof, inputs) == Ok::<_, Groth16Error>(valid) <==> {
            &&& points_of(proof) is Ok
            &&& key.gamma_abc_g1.len() == inputs.len() + 1
            &&& pairing_exists(g1_bytes(key.alpha_g1), g2_bytes(key.beta_g2))
            &&& groth16_verdict(key_bytes(key), inputs, proof_bytes(points_of(proof)->Ok_0)) == Some(
                valid,
            )
        },
{
}

/// A key that was written down is read part by part: each of its points from the entry of that
/// name, and its list of points in the order of the list.
pub proof fn law_key_is_read_part_by_part(vk: SnarkjsVK, i: int)
    requires
        text_key(vk) is Ok,
    ensures
        text_key(vk) matches Ok(key) && {
            &&& vk.protocol@ == "groth16"@
            &&& vk.curve@ == "bn128"@
            &&& text_g1(vk.vk_alpha_1@) == Ok::<_, Groth16Error>(key.alpha_g1)
            &&& text_g2(vk.vk_beta_2@) == Ok::<_, Groth16Error>(key.beta_g2)
            &&& text_g2(vk.vk_gamma_2@) == Ok::<_, Groth16Error>(key.gamma_g2)
            &&& text_g2(vk.vk_delta_2@) == Ok::<_, Groth16Error>(key.delta_g2)
            &&& key.gamma_abc_g1.len() == vk.ic@.len()
            &&& 0 <= i < vk.ic@.len() ==> text_g1(vk.ic@[i]@) == Ok::<_, Groth16Error>(
                key.gamma_abc_g1[i],
            )
        },
{
    lemma_text_points(vk.ic@, i);
}

/// Points that are read from a list come in its order.
proof fn lemma_text_points(list: Seq<Vec<String>>, i: int)
    requires
        text_points(list) is Ok,
    ensures
        (text_points(list)->Ok_0).len() == list.len(),
        0 <= i < list.len() ==> text_g1(list[i]@) == Ok::<_, Groth16Error>((text_points(list)->Ok_0)[i]),
    decreases list.len(),
{
    if list.len() > 0 {
        lemma_text_points(list.drop_last(), i);
    }
}

/// A point that was written down has the coordinates that the text spells, in their order.
pub proof fn law_written_points_have_their_coordinates(g1: Seq<String>, g2: Seq<Vec<String>>)
    ensures
        text_g1(g1) matches Ok(G1View::Affine { x, y }) ==> {
            &&& decimal_value(g1[0]@) matches Some(v)
            &&& x == v % two_256()
            &&& decimal_value(g1[1]@) matches Some(w)
            &&& y == w % two_256()
        },
        text_g2(g2) matches Ok(G2View::Affine { x0, x1, y0, y1 }) ==> {
            &&& decimal_value(g2[0]@[0]@) matches Some(a)
            &&& x0 == a % two_256()
            &&& decimal_value(g2[0]@[1]@) matches Some(b)
            &&& x1 == b % two_256()
            &&& decimal_value(g2[1]@[0]@) matches Some(c)
            &&& y0 == c % two_256()
            &&& decimal_value(g2[1]@[1]@) matches Some(d)
            &&& y1 == d % two_256()
        },
{
}

/// The forms of points have 64 and 128 bytes.
proof fn lemma_point_forms(a: G1View, b: G2View)
    ensures
        g1_bytes(a).len() == 64,
        g2_bytes(b).len() == 128,
{
    match a {
        G1View::Affine { x, y } => {
            lemma_be_bytes_len(x, 32);
            lemma_be_bytes_len(y, 32);
        },
        G1View::Infinity => {},
    }
    match b {
        G2View::Affine { x0, x1, y0, y1 } => {
            lemma_be_bytes_len(x0, 32);
            lemma_be_bytes_len(x1, 32);
            lemma_be_bytes_len(y0, 32);
            lemma_be_bytes_len(y1, 32);
        },
        G2View::Infinity => {},
    }
}

/// The form of a list of points holds each at its place.
proof fn lemma_points_form(points: Seq<G1View>, i: int)
    ensures
        points_bytes(points).len() == 64 * points.len(),
        0 <= i < points.len() ==> points_bytes(points).subrange(64 * i, 64 * i + 64) == g1_bytes(
            points[i],
        ),
    decreases points.len(),
{
    if points.len() > 0 {
        let front = points.drop_last();
        lemma_points_form(front, i);
        lemma_point_forms(points.last(), G2View::Infinity);
        if 0 <= i < points.len() {
            let part = points_bytes(points).subrange(64 * i, 64 * i + 64);
            if i < front.len() {
                assert(part =~= points_bytes(front).subrange(64 * i, 64 * i + 64));
            } else {
                assert(part =~= g1_bytes(points[i]));
            }
        }
    }
}

/// In the form of a proof its three points stand one after another; in that of a key its four
/// points, how many there are in its list, least significant byte first, and these in their
/// order.
pub proof fn law_forms_hold_their_points(points: ProofView, key: KeyView, i: int)
    ensures
        ({
            let form = proof_bytes(points);
            &&& form.len() == 256
            &&& form.subrange(0, 64) == g1_bytes(points.a)
            &&& form.subrange(64, 192) == g2_bytes(points.b)
            &&& form.subrange(192, 256) == g1_bytes(points.c)
        }),
        ({
            let form = key_bytes(key);
            &&& form.len() == 456 + 64 * key.gamma_abc_g1.len()
            &&& form.subrange(0, 64) == g1_bytes(key.alpha_g1)
            &&& form.subrange(64, 192) == g2_bytes(key.beta_g2)
            &&& form.subrange(192, 320) == g2_bytes(key.gamma_g2)
            &&& form.subrange(320, 448) == g2_bytes(key.delta_g2)
            &&& form.subrange(448, 456).reverse() == be_bytes(key.gamma_abc_g1.len(), 8)
            &&& 0 <= i < key.gamma_abc_g1.len() ==> form.subrange(456 + 64 * i, 520 + 64 * i)
                == g1_bytes(key.gamma_abc_g1[i])
        }),
{
    lemma_point_forms(points.a, points.b);
    lemma_point_forms(points.c, points.b);
    let form = proof_bytes(points);
    assert(form.subrange(0, 64) =~= g1_bytes(points.a));
    assert(form.subrange(64, 192) =~= g2_bytes(points.b));
    assert(form.subrange(192, 256) =~= g1_bytes(points.c));
    lemma_point_forms(key.alpha_g1, key.beta_g2);
    lemma_point_forms(key.alpha_g1, key.gamma_g2);
    lemma_point_forms(key.alpha_g1, key.delta_g2);
    lemma_be_bytes_len(key.gamma_abc_g1.len(), 8);
    lemma_points_form(key.gamma_abc_g1, i);
    let whole = key_bytes(key);
    assert(whole.subrange(0, 64) =~= g1_bytes(key.alpha_g1));
    assert(whole.subrange(64, 192) =~= g2_bytes(key.beta_g2));
    assert(whole.subrange(192, 320) =~= g2_bytes(key.gamma_g2));
    assert(whole.subrange(320, 448) =~= g2_bytes(key.delta_g2));
    assert(whole.subrange(448, 456).reverse() =~= be_bytes(key.gamma_abc_g1.len(), 8));
    if 0 <= i < key.gamma_abc_g1.len() {
        assert(whole.subrange(456 + 64 * i, 520 + 64 * i) =~= points_bytes(
            key.gamma_abc_g1,
        ).subrange(64 * i, 64 * i + 64));
    }
}

/// In the form of a point its coordinates stand one after another, each with its least significant
/// byte first.
pub proof fn law_point_forms_hold_their_coordinates(x: nat, y: nat, z: nat, w: nat)
    ensures
        g1_bytes(G1View::Affine { x, y }).subrange(0, 32).reverse() == be_bytes(x, 32),
        g1_bytes(G1View::Affine { x, y }).subrange(32, 64).reverse() == be_bytes(y, 32),
        g2_bytes(G2View::Affine { x0: x, x1: y, y0: z, y1: w }).subrange(0, 32).reverse() == be_bytes(
            x,
            32,
        ),
        g2_bytes(G2View::Affine { x0: x, x1: y, y0: z, y1: w }).subrange(32, 64).reverse()
            == be_bytes(y, 32),
        g2_bytes(G2View::Affine { x0: x, x1: y, y0: z, y1: w }).subrange(64, 96).reverse()
            == be_bytes(z, 32),
        g2_bytes(G2View::Affine { x0: x, x1: y, y0: z, y1: w }).subrange(96, 128).reverse()
            == be_bytes(w, 32),
{
    lemma_be_bytes_len(x, 32);
    lemma_be_bytes_len(y, 32);
    lemma_be_bytes_len(z, 32);
    lemma_be_bytes_len(w, 32);
    let a = g1_bytes(G1View::Affine { x, y });
    let b = g2_bytes(G2View::Affine { x0: x, x1: y, y0: z, y1: w });
    assert(a.subrange(0, 32).reverse() =~= be_bytes(x, 32));
    assert(a.subrange(32, 64).reverse() =~= be_bytes(y, 32));
    assert(b.subrange(0, 32).reverse() =~= be_bytes(x, 32));
    assert(b.subrange(32, 64).reverse() =~= be_bytes(y, 32));
    assert(b.subrange(64, 96).reverse() =~= be_bytes(z, 32));
    assert(b.subrange(96, 128).reverse() =~= be_bytes(w, 32));
}

/// The order of the BN254 base field in decimal, and the constant of the second group's equation.
pub proof fn law_curve_constants()
    ensures
        base_order()@
            == 21888242871839275222246405745257275088696311157297823662689037894645226208583,
        g2_b0()@ == 19485874751759354771024239261021720505790618469301721065564631296452457478373,
        g2_b1()@ == 266929791119991161246907387137283842545076965332900288569378510910307636690,
{
}

/// What a key and a proof say is what they hold, point by point, and a point says its coordinates.
pub proof fn law_points_say_what_they_hold(
    key: VerifyingKey,
    points: ProofPoints,
    a: G1Point,
    b: G2Point,
    i: int,
)
    ensures
        key@.alpha_g1 == key.alpha_g1@,
        key@.beta_g2 == key.beta_g2@,
        key@.gamma_g2 == key.gamma_g2@,
        key@.delta_g2 == key.delta_g2@,
        key@.gamma_abc_g1.len() == key.gamma_abc_g1@.len(),
        0 <= i < key.gamma_abc_g1@.len() ==> key@.gamma_abc_g1[i] == key.gamma_abc_g1@[i]@,
        points@.a == points.a@,
        points@.b == points.b@,
        points@.c == points.c@,
        a is Infinity <==> a@ is Infinity,
        a matches G1Point::Affine { x, y } ==> a@ == (G1View::Affine { x: x@, y: y@ }),
        b is Infinity <==> b@ is Infinity,
        b matches G2Point::Affine { x0, x1, y0, y1 } ==> b@ == (G2View::Affine {
            x0: x0@,
            x1: x1@,
            y0: y0@,
            y1: y1@,
        }),
{
}

} // verus!
