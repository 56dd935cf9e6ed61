//! KZG openings of single fields of an EIP-4844 blob.
//!
//! A blob is 4096 field elements of 32 bytes. Field `i` is the value of the blob's
//! polynomial at a point that depends on `i` alone: the 4096th root of unity,
//! raised to `i` with its twelve bits reversed.

use crate::types::{be_bytes, be_value, lemma_be_value_of_bytes, lemma_pow_256_32, B256, U256};
use vstd::arithmetic::power::{lemma_pow0, lemma_pow1, lemma_pow_adds, lemma_pow_multiplies, pow};
use vstd::arithmetic::power2::{lemma2_to64, lemma_pow2_adds, lemma_pow2_pos, lemma_pow2_unfold, pow2};
use vstd::arithmetic::div_mod::{
    lemma_div_denominator, lemma_hoist_over_denominator, lemma_mod_bound, lemma_mod_twice, lemma_mul_mod_noop,
    lemma_mul_mod_noop_left, lemma_mul_mod_noop_right, lemma_small_mod,
};
use vstd::prelude::*;

verus! {

/// Number of field elements per blob.
pub const FIELD_ELEMENTS_PER_BLOB: usize = 4096;

/// Number of bytes per blob.
pub const BYTES_PER_BLOB: usize = 131072;

/// Order of the BLS12-381 scalar field.
pub open spec fn bls_modulus() -> U256 {
    U256 {
        l0: 0xFFFFFFFF00000001,
        l1: 0x53BDA402FFFE5BFE,
        l2: 0x3339D80809A1D805,
        l3: 0x73EDA753299D7D48,
    }
}

/// The 4096th root of unity on which blobs are evaluated.
pub open spec fn root_of_unity() -> nat {
    (pow(7, ((bls_modulus()@ - 1) / 4096) as nat) % bls_modulus()@ as int) as nat
}

/// `index` with its `bits` low bits in reverse order.
pub open spec fn reverse_bits(index: nat, bits: nat) -> nat
    decreases bits,
{
    if bits == 0 {
        0
    } else {
        (index % 2) * pow2((bits - 1) as nat) + reverse_bits(index / 2, (bits - 1) as nat)
    }
}

/// The point at which a blob's polynomial takes the value of field `index`.
pub open spec fn evaluation_point(index: nat) -> nat {
    (pow(root_of_unity() as int, reverse_bits(index, 12)) % bls_modulus()@ as int) as nat
}

/// The bytes of field `index` of a blob.
pub open spec fn field_bytes(blob: Seq<u8>, index: int) -> Seq<u8> {
    blob.subrange(32 * index, 32 * index + 32)
}

/// Whether every field of a blob is an element of the scalar field.
pub open spec fn canonical_blob(blob: Seq<u8>) -> bool {
    forall|i: int| 0 <= i < 4096 ==> be_value(#[trigger] field_bytes(blob, i)) < bls_modulus()@
}

/// The KZG commitment to a blob, under the Ethereum mainnet setup.
pub uninterp spec fn kzg_commitment(blob: Seq<u8>) -> Seq<u8>;

/// The KZG opening of a blob at the point that `z` spells: the proof, and the bytes
/// of the value there.
pub uninterp spec fn kzg_opening(blob: Seq<u8>, z: Seq<u8>) -> (Seq<u8>, Seq<u8>);

/// Why no KZG proof was made.
#[derive(Clone, Copy, Debug, PartialEq, Eq, Structural)]
pub enum KzgError {
    /// A blob has another size than 131072 bytes.
    InvalidBlobSize { got: usize },
    /// A blob has no field of this index.
    FieldIndexOutOfRange { index: usize },
    /// The commitment cannot be computed: some field is no scalar.
    Commitment,
    /// The opening cannot be computed.
    Proof,
}

impl KzgError {
    /// What an error says.
    pub open spec fn text(self) -> &'static str {
        match self {
            KzgError::InvalidBlobSize { .. } => "Invalid blob size",
            KzgError::FieldIndexOutOfRange { .. } => "Field index out of range",
            KzgError::Commitment => "Failed to compute commitment",
            KzgError::Proof => "Failed to compute proof",
        }
    }

    /// What the error says.
    pub fn message(&self) -> (r: &'static str)
        ensures
            r@ == self.text()@,
    {
        match self {
            KzgError::InvalidBlobSize { .. } => "Invalid blob size",
            KzgError::FieldIndexOutOfRange { .. } => "Field index out of range",
            KzgError::Commitment => "Failed to compute commitment",
            KzgError::Proof => "Failed to compute proof",
        }
    }
}

/// `c_kzg::KzgSettings::blob_to_kzg_commitment`, under the Ethereum mainnet setup:
/// the 48-byte commitment to a blob of the right size. Memory permitting, it exists
/// exactly where every field is a scalar.
#[verifier::external_body]
fn commit(blob: &[u8]) -> (r: Option<Vec<u8>>)
    requires
        blob@.len() == BYTES_PER_BLOB,
    ensures
        r is Some <==> canonical_blob(blob@),
        r matches Some(c) ==> c@ == kzg_commitment(blob@) && c@.len() == 48,
{
    let blob = c_kzg::Blob::from_bytes(blob).ok()?;
    let c = c_kzg::ethereum_kzg_settings(0).blob_to_kzg_commitment(&blob).ok()?;
    Some(c.to_bytes().to_vec())
}

/// `c_kzg::KzgSettings::compute_kzg_proof`, under the Ethereum mainnet setup: the
/// 48-byte proof of a blob of the right size at a point, and the value there.
/// Memory permitting, they exist exactly where every field and the point are
/// scalars. At the evaluation point of a field the value is the field itself.
#[verifier::external_body]
fn open_at(blob: &[u8], z: &B256) -> (r: Option<(Vec<u8>, B256)>)
    requires
        blob@.len() == BYTES_PER_BLOB,
    ensures
        r is Some <==> (canonical_blob(blob@) && be_value(z@) < bls_modulus()@),
        r matches Some(p) ==> (p.0@, p.1@) == kzg_opening(blob@, z@) && p.0@.len() == 48,
        r matches Some(p) ==> forall|i: nat|
            i < 4096 && be_value(z@) == #[trigger] evaluation_point(i) ==> p.1@ == field_bytes(
                blob@,
                i as int,
            ),
{
    let blob = c_kzg::Blob::from_bytes(blob).ok()?;
    let z = c_kzg::Bytes32::new(z.0);
    let (proof, y) = c_kzg::ethereum_kzg_settings(0).compute_kzg_proof(&blob, &z).ok()?;
    Some((proof.to_bytes().to_vec(), B256(*y)))
}

/// The order of the BLS12-381 scalar field.
pub fn bls_scalar_modulus() -> (r: U256)
    ensures
        r == bls_modulus(),
{
    U256 {
        l0: 0xFFFFFFFF00000001,
        l1: 0x53BDA402FFFE5BFE,
        l2: 0x3339D80809A1D805,
        l3: 0x73EDA753299D7D48,
    }
}

/// The primitive 4096th root of unity of the BLS12-381 scalar field.
pub fn compute_root_of_unity() -> (r: U256)
    ensures
        r@ == root_of_unity(),
{
    let modulus = bls_scalar_modulus();
    let base = U256::from_u64(7);
    let order = U256 { l0: modulus.l0 - 1, l1: modulus.l1, l2: modulus.l2, l3: modulus.l3 };
    let exponent = order.div(&U256::from_u64(4096));
    assert(order@ == bls_modulus()@ - 1);
    assert(exponent@ == (bls_modulus()@ - 1) / 4096);
    assert(exponent@ > 0);
    mod_exp(base, exponent, modulus)
}

/// `base` to the power of `exp`, modulo `modulus`. The result is zero where the modulus
/// is.
pub fn mod_exp(base: U256, exp: U256, modulus: U256) -> (r: U256)
    ensures
        modulus@ == 0 ==> r@ == 0,
        modulus@ > 0 ==> r@ == pow(base@ as int, exp@) % modulus@ as int,
{
    if modulus.is_zero() {
        return U256::zero();
    }
    let ghost m = modulus@ as int;
    let ghost b0 = base@ as int;
    let ghost e0 = exp@;
    let mut result = U256::from_u64(1).rem(&modulus);
    let mut base = base.rem(&modulus);
    let mut exp = exp;
    proof {
        lemma_pow_mod(b0, e0, m);
        assert(1 * pow(base@ as int, exp@) == pow(base@ as int, exp@));
        lemma_mul_mod_noop_left(1, pow(base@ as int, exp@), m);
    }
    while !exp.is_zero()
        invariant
            m == modulus@,
            m > 0,
            (result@ * pow(base@ as int, exp@)) % m == pow(b0, e0) % m,
            result@ < m,
        decreases exp@,
    {
        let ghost r = result@ as int;
        let ghost b = base@ as int;
        let ghost e = exp@;
        let ghost half = e / 2;
        if exp.is_odd() {
            result = result.mul_mod(&base, &modulus);
            proof {
                lemma_pow_adds(b, (2 * half) as nat, 1);
                lemma_pow1(b);
                assert(r * (pow(b, 2 * half) * b) == (r * b) * pow(b, 2 * half))
                    by (nonlinear_arith);
                lemma_mul_mod_noop_left(r * b, pow(b, 2 * half), m);
            }
        }
        assert((result@ * pow(b, 2 * half)) % m == pow(b0, e0) % m);
        exp = exp.half();
        base = base.mul_mod(&base, &modulus);
        proof {
            lemma_pow_multiplies(b, 2, half);
            assert(pow(b, 2) == b * b) by {
                lemma_pow_adds(b, 1, 1);
                lemma_pow1(b);
            }
            assert(pow(b, 2 * half) == pow(b * b, half));
            lemma_pow_mod(b * b, half, m);
            lemma_mul_mod_noop_right(result@ as int, pow(b * b, half), m);
            lemma_mul_mod_noop_right(result@ as int, pow(base@ as int, half), m);
            if half == 0 {
                assert(e == 1);
            }
        }
    }
    proof {
        lemma_pow0(base@ as int);
        assert(result@ * 1 == result@);
        lemma_small_mod(result@, m as nat);
    }
    result
}

/// Reducing the base first does not change a power modulo `m`.
proof fn lemma_pow_mod(b: int, e: nat, m: int)
    requires
        m > 0,
    ensures
        pow(b % m, e) % m == pow(b, e) % m,
    decreases e,
{
    reveal(pow);
    if e > 0 {
        let p = (e - 1) as nat;
        lemma_pow_mod(b, p, m);
        lemma_mul_mod_noop(b % m, pow(b % m, p), m);
        lemma_mul_mod_noop(b, pow(b, p), m);
        lemma_mod_twice(b, m);
    }
}

/// The twelve low bits of `index`, in reverse order.
pub fn bit_reverse_index(index: usize) -> (r: u64)
    ensures
        r == reverse_bits(index as nat, 12),
        r < 4096,
{
    let mut reversed: u64 = 0;
    let mut i: u64 = index as u64;
    let mut step: u64 = 0;
    proof {
        lemma2_to64();
    }
    while step < 12
        invariant
            step <= 12,
            reversed < pow2(step as nat),
            reverse_bits(index as nat, 12) == reversed * pow2((12 - step) as nat) + reverse_bits(
                i as nat,
                (12 - step) as nat,
            ),
        decreases 12 - step,
    {
        proof {
            lemma2_to64();
            lemma_pow2_unfold((step + 1) as nat);
            lemma_pow2_unfold((12 - step) as nat);
            assert(reversed < 4096) by {
                if step < 12 {
                    vstd::arithmetic::power2::lemma_pow2_strictly_increases(step as nat, 12);
                }
            }
            let q = pow2((11 - step) as nat) as int;
            assert((reversed * 2 + i % 2) * q == reversed * (2 * q) + (i % 2) * q)
                by (nonlinear_arith);
        }
        reversed = reversed * 2 + i % 2;
        i = i / 2;
        step += 1;
    }
    proof {
        lemma2_to64();
        assert(reversed * 1 == reversed);
    }
    reversed
}

/// Reversed bits fit in as many bits.
proof fn lemma_reverse_bits_bound(index: nat, bits: nat)
    ensures
        reverse_bits(index, bits) < pow2(bits),
    decreases bits,
{
    if bits > 0 {
        let rest = (bits - 1) as nat;
        lemma_reverse_bits_bound(index / 2, rest);
        lemma_pow2_unfold(bits);
        let p = pow2(rest) as int;
        assert((index % 2) * p <= p) by (nonlinear_arith)
            requires
                0 <= index % 2 <= 1,
                p >= 0,
        ;
    } else {
        lemma_pow2_pos(0);
    }
}

/// The top bit of a number comes out lowest.
proof fn lemma_reverse_bits_top(top: nat, low: nat, bits: nat)
    requires
        top <= 1,
        low < pow2(bits),
    ensures
        reverse_bits(top * pow2(bits) + low, bits + 1) == 2 * reverse_bits(low, bits) + top,
    decreases bits,
{
    let n = top * pow2(bits) + low;
    lemma2_to64();
    if bits == 0 {
        assert(n == top);
        assert(reverse_bits(n, 1) == (n % 2) * pow2(0) + reverse_bits(n / 2, 0));
        assert((n % 2) * 1 == n % 2);
    } else {
        let rest = (bits - 1) as nat;
        lemma_pow2_unfold(bits);
        let p = pow2(rest) as int;
        assert(top * (2 * p) == 2 * (top * p)) by (nonlinear_arith);
        assert(n % 2 == low % 2);
        assert(n / 2 == top * pow2(rest) + low / 2);
        lemma_reverse_bits_top(top, low / 2, rest);
        assert((low % 2) * (2 * p) == 2 * ((low % 2) * p)) by (nonlinear_arith);
    }
}

/// Reversing bits twice gives them back.
proof fn lemma_reverse_bits_twice(index: nat, bits: nat)
    requires
        index < pow2(bits),
    ensures
        reverse_bits(reverse_bits(index, bits), bits) == index,
    decreases bits,
{
    if bits > 0 {
        let rest = (bits - 1) as nat;
        lemma_pow2_unfold(bits);
        lemma_reverse_bits_bound(index / 2, rest);
        lemma_reverse_bits_top(index % 2, reverse_bits(index / 2, rest), rest);
        lemma_reverse_bits_twice(index / 2, rest);
    } else {
        lemma2_to64();
    }
}

/// Reversing the bits of a field index twice gives the index back, so that no two
/// fields of a blob share an exponent of the root of unity.
pub proof fn law_bit_reversal_involutive(index: nat)
    requires
        index < 4096,
    ensures
        reverse_bits(index, 12) < 4096,
        reverse_bits(reverse_bits(index, 12), 12) == index,
{
    lemma2_to64();
    lemma_reverse_bits_bound(index, 12);
    lemma_reverse_bits_twice(index, 12);
}

/// The evaluation point of field `index`, as 32 bytes.
pub fn compute_evaluation_point(index: usize) -> (r: B256)
    ensures
        r@ == be_bytes(evaluation_point(index as nat), 32),
        be_value(r@) == evaluation_point(index as nat),
        be_value(r@) < bls_modulus()@,
{
    let root = compute_root_of_unity();
    let reversed = bit_reverse_index(index);
    let z = mod_exp(root, U256::from_u64(reversed), bls_scalar_modulus());
    proof {
        if reversed == 0 {
            lemma_pow0(root_of_unity() as int);
            lemma_small_mod(1, bls_modulus()@);
        }
        assert(z@ == evaluation_point(index as nat));
        lemma_pow_256_32();
        lemma_be_value_of_bytes(z@, 32);
    }
    z.to_be_bytes()
}

/// What a field's KZG proof consists of.
#[verifier::ext_equal]
pub struct FieldProofView {
    pub commitment: Seq<u8>,
    pub proof: Seq<u8>,
    pub value: Seq<u8>,
    pub y_value: Seq<u8>,
}

/// The proof that is made for a field of a blob, or why none is.
pub open spec fn field_proof(blob: Seq<u8>, index: nat) -> Result<FieldProofView, KzgError> {
    if blob.len() != BYTES_PER_BLOB {
        Err(KzgError::InvalidBlobSize { got: blob.len() as usize })
    } else if index >= FIELD_ELEMENTS_PER_BLOB {
        Err(KzgError::FieldIndexOutOfRange { index: index as usize })
    } else if !canonical_blob(blob) {
        Err(KzgError::Commitment)
    } else {
        let opening = kzg_opening(blob, be_bytes(evaluation_point(index), 32));
        Ok(
            FieldProofView {
                commitment: kzg_commitment(blob),
                proof: opening.0,
                value: field_bytes(blob, index as int),
                y_value: opening.1,
            },
        )
    }
}

/// The commitment that is made to a blob, or why none is.
pub open spec fn blob_commitment(blob: Seq<u8>) -> Result<Seq<u8>, KzgError> {
    if blob.len() != BYTES_PER_BLOB {
        Err(KzgError::InvalidBlobSize { got: blob.len() as usize })
    } else if !canonical_blob(blob) {
        Err(KzgError::Commitment)
    } else {
        Ok(kzg_commitment(blob))
    }
}

/// The KZG proof of a field.
#[derive(Clone, Debug)]
pub struct KzgFieldProof {
    /// Commitment to the blob, 48 bytes.
    pub commitment: Vec<u8>,
    /// Proof of the field, 48 bytes.
    pub proof: Vec<u8>,
    /// The field, as it stands in the blob.
    pub value: B256,
    /// The value of the blob's polynomial at the field's evaluation point.
    pub y_value: B256,
}

impl View for KzgFieldProof {
    type V = FieldProofView;

    open spec fn view(&self) -> FieldProofView {
        FieldProofView {
            commitment: self.commitment@,
            proof: self.proof@,
            value: self.value@,
            y_value: self.y_value@,
        }
    }
}

/// The 32 bytes from `start` on.
pub fn read_word(bytes: &[u8], start: usize) -> (r: B256)
    requires
        start + 32 <= bytes@.len(),
    ensures
        r@ == bytes@.subrange(start as int, start + 32),
{
    let len: usize = bytes.len();
    let mut word = [0u8; 32];
    let mut k: usize = 0;
    while k < 32
        invariant
            k <= 32,
            len == bytes@.len(),
            start + 32 <= len,
            forall|j: int| 0 <= j < k ==> word@[j] == bytes@[start + j],
        decreases 32 - k,
    {
        word[k] = bytes[start + k];
        k += 1;
    }
    assert(word@ =~= bytes@.subrange(start as int, start + 32));
    B256(word)
}

/// Makes KZG proofs of blob fields, under the Ethereum mainnet setup.
#[derive(Clone, Copy, Debug)]
pub struct KzgProver {}

impl KzgProver {
    /// A prover on the Ethereum mainnet setup.
    pub fn new() -> (r: Result<KzgProver, KzgError>)
        ensures
            r is Ok,
    {
        Ok(KzgProver {  })
    }

    /// Makes the KZG proof of field `field_index` of a blob.
    pub fn generate_proof(&self, blob_data: &[u8], field_index: usize) -> (r: Result<
        KzgFieldProof,
        KzgError,
    >)
        ensures
            r is Ok <==> field_proof(blob_data@, field_index as nat) is Ok,
            r matches Ok(p) ==> field_proof(blob_data@, field_index as nat) == Ok::<_, KzgError>(p@),
            r matches Ok(p) ==> p.commitment@.len() == 48 && p.proof@.len() == 48,
            r matches Ok(p) ==> p.y_value@ == p.value@,
            r matches Err(e) ==> field_proof(blob_data@, field_index as nat) == Err::<
                FieldProofView,
                _,
            >(e),
    {
        if blob_data.len() != BYTES_PER_BLOB {
            return Err(KzgError::InvalidBlobSize { got: blob_data.len() });
        }
        if field_index >= FIELD_ELEMENTS_PER_BLOB {
            return Err(KzgError::FieldIndexOutOfRange { index: field_index });
        }
        let commitment = match commit(blob_data) {
            Some(c) => c,
            None => {
                return Err(KzgError::Commitment);
            },
        };
        let z = compute_evaluation_point(field_index);
        let (proof, y_value) = match open_at(blob_data, &z) {
            Some(p) => p,
            None => {
                return Err(KzgError::Proof);
            },
        };
        let value = read_word(blob_data, field_index * 32);
        Ok(KzgFieldProof { commitment, proof, value, y_value })
    }

    /// Computes the KZG commitment to a blob.
    pub fn compute_commitment(&self, blob_data: &[u8]) -> (r: Result<Vec<u8>, KzgError>)
        ensures
            r is Ok <==> blob_commitment(blob_data@) is Ok,
            r matches Ok(c) ==> blob_commitment(blob_data@) == Ok::<_, KzgError>(c@) && c@.len()
                == 48,
            r matches Err(e) ==> blob_commitment(blob_data@) == Err::<Seq<u8>, _>(e),
    {
        if blob_data.len() != BYTES_PER_BLOB {
            return Err(KzgError::InvalidBlobSize { got: blob_data.len() });
        }
        match commit(blob_data) {
            Some(c) => Ok(c),
            None => Err(KzgError::Commitment),
        }
    }
}

impl Default for KzgProver {
    fn default() -> (r: Self) {
        KzgProver {  }
    }
}

/// Reversing the bits of a field index moves each bit to the other end: the lowest becomes the
/// highest.
pub proof fn law_bit_reversal_mirrors_bits(index: nat, bits: nat, b: nat)
    requires
        b < bits,
    ensures
        (reverse_bits(index, bits) / pow2(b)) % 2 == (index / pow2((bits - 1 - b) as nat)) % 2,
    decreases bits,
{
    let rest = (bits - 1) as nat;
    let low = reverse_bits(index / 2, rest);
    let top = index % 2;
    let all = reverse_bits(index, bits);
    lemma2_to64();
    lemma_reverse_bits_bound(index / 2, rest);
    lemma_pow2_pos(rest);
    lemma_pow2_pos(b);
    if b == rest {
        let p = pow2(rest);
        assert(all == top * p + low);
        assert((top * p + low) / p == top) by (nonlinear_arith)
            requires
                low < p,
                p > 0,
        ;
        assert(index / 1 == index);
    } else {
        law_bit_reversal_mirrors_bits(index / 2, rest, b);
        let gap = (rest - b - 1) as nat;
        lemma_pow2_adds(b, gap + 1);
        lemma_pow2_unfold(gap + 1);
        let p = pow2(b);
        let q = pow2(gap);
        assert(pow2(rest) == p * (2 * q));
        assert((top * pow2(rest) + low) / p == top * (2 * q) + low / p) by {
            let m = top * (2 * q);
            assert(top * (p * (2 * q)) == m * p) by (nonlinear_arith)
                requires
                    m == top * (2 * q),
            ;
            lemma_hoist_over_denominator(low as int, m as int, p);
        }
        assert(top * (2 * q) == 2 * (top * q)) by (nonlinear_arith);
        assert((2 * (top * q) + low / p) % 2 == (low / p) % 2);
        lemma_pow2_pos(gap);
        lemma_div_denominator(index as int, 2, pow2(gap) as int);
        assert((bits - 1 - b) as nat == gap + 1);
    }
}

/// A proof of a field is made exactly where the blob has its size, the field exists and every
/// field of the blob is a scalar; a commitment exactly where the blob has its size and every
/// field is a scalar.
pub proof fn law_proof_exists_iff(blob: Seq<u8>, index: nat)
    ensures
        ({
            let scalars = forall|i: int|
                0 <= i < 4096 ==> be_value(#[trigger] blob.subrange(32 * i, 32 * i + 32))
                    < bls_modulus()@;
            &&& field_proof(blob, index) is Ok <==> (blob.len() == 131072 && index < 4096 && scalars)
            &&& blob_commitment(blob) is Ok <==> (blob.len() == 131072 && scalars)
            &&& blob_commitment(blob) matches Ok(commitment) ==> commitment == kzg_commitment(blob)
        }),
{
    assert forall|i: int| 0 <= i < 4096 implies #[trigger] field_bytes(blob, i) == blob.subrange(
        32 * i,
        32 * i + 32,
    ) by {}
    if canonical_blob(blob) {
        assert forall|i: int| 0 <= i < 4096 implies be_value(
            #[trigger] blob.subrange(32 * i, 32 * i + 32),
        ) < bls_modulus()@ by {
            assert(be_value(field_bytes(blob, i)) < bls_modulus()@);
        }
    } else {
        let i = choose|i: int|
            0 <= i < 4096 && be_value(#[trigger] field_bytes(blob, i)) >= bls_modulus()@;
        assert(be_value(blob.subrange(32 * i, 32 * i + 32)) >= bls_modulus()@);
    }
}

/// The order of the BLS12-381 scalar field in decimal.
pub proof fn law_bls_order()
    ensures
        bls_modulus()@
            == 52435875175126190479447740508185965837690552500527637822603658699938581184513,
{
}

/// Numbers with the same low bits, and no others, are the same.
proof fn lemma_same_bits(a: nat, b: nat, bits: nat)
    requires
        a < pow2(bits),
        b < pow2(bits),
        forall|i: nat| i < bits ==> #[trigger] ((a / pow2(i)) % 2) == (b / pow2(i)) % 2,
    ensures
        a == b,
    decreases bits,
{
    lemma2_to64();
    if bits > 0 {
        let rest = (bits - 1) as nat;
        lemma_pow2_unfold(bits);
        assert((a / pow2(0)) % 2 == (b / pow2(0)) % 2);
        assert(a / 1 == a && b / 1 == b);
        assert forall|i: nat| i < rest implies #[trigger] ((a / 2 / pow2(i)) % 2) == (b / 2 / pow2(
            i,
        )) % 2 by {
            lemma_pow2_unfold(i + 1);
            lemma_pow2_pos(i);
            lemma_div_denominator(a as int, 2, pow2(i) as int);
            lemma_div_denominator(b as int, 2, pow2(i) as int);
            assert((a / pow2(i + 1)) % 2 == (b / pow2(i + 1)) % 2);
        }
        lemma_same_bits(a / 2, b / 2, rest);
    }
}

/// The point of a field is the root of unity to the power of the number that has the twelve bits
/// of the field's index in reverse order.
pub proof fn law_point_of_a_field(index: nat, mirrored: nat)
    requires
        index < 4096,
        mirrored < 4096,
        forall|b: nat|
            b < 12 ==> #[trigger] ((mirrored / pow2(b)) % 2) == (index / pow2((11 - b) as nat)) % 2,
    ensures
        evaluation_point(index) == pow(root_of_unity() as int, mirrored) % bls_modulus()@ as int,
{
    lemma2_to64();
    lemma_reverse_bits_bound(index, 12);
    let reversed = reverse_bits(index, 12);
    assert forall|b: nat| b < 12 implies #[trigger] ((mirrored / pow2(b)) % 2) == (reversed / pow2(
        b,
    )) % 2 by {
        law_bit_reversal_mirrors_bits(index, 12, b);
    }
    lemma_same_bits(mirrored, reversed, 12);
    assert(pow(root_of_unity() as int, mirrored) % bls_modulus()@ as int >= 0) by {
        lemma_mod_bound(pow(root_of_unity() as int, mirrored), bls_modulus()@ as int);
    }
}

/// What a field's proof says is what it holds, part by part.
pub proof fn law_field_proof_says_what_it_holds(held: KzgFieldProof)
    ensures
        held@.commitment == held.commitment@,
        held@.proof == held.proof@,
        held@.value == held.value@,
        held@.y_value == held.y_value@,
{
}

} // verus!
