//! Proofs of tree updates by a prover in this process: what goes into it, and what comes
//! out. Numbers come out as bytes, most significant first and without leading zeros.

use crate::snarkjs::{b256_to_decimal, decimals, text_views};
use crate::text::{decimal, u256_to_text};
use crate::types::{be_value, lemma_leading_zeros, Proof, B256, U256};
use vstd::prelude::*;

verus! {

/// Why no proof came out.
#[derive(Clone, Copy, Debug, PartialEq, Eq, Structural)]
pub enum CircomError {
    /// A number has more than 256 bits.
    TooLarge,
    /// There are too few public signals.
    InvalidSignalCount { got: usize },
}

/// Makes proofs of tree updates in this process.
#[derive(Debug)]
pub struct RustCircomProver {
    /// File of the proving key.
    pub zkey_path: String,
}

impl RustCircomProver {
    /// A prover with a proving key.
    pub fn new(zkey_path: &str) -> (r: RustCircomProver)
        ensures
            r.zkey_path@ == zkey_path@,
    {
        RustCircomProver { zkey_path: zkey_path.to_owned() }
    }
}

/// Bytes with zeros in front, up to 32 of them.
pub open spec fn padded(bytes: Seq<u8>) -> Seq<u8> {
    Seq::new((32 - bytes.len()) as nat, |i: int| 0u8) + bytes
}

/// The word that the bytes of a number make. Fails exactly where there are more than 32.
pub fn biguint_to_b256(bytes: &[u8]) -> (r: Result<B256, CircomError>)
    ensures
        r is Ok <==> bytes@.len() <= 32,
        r matches Ok(w) ==> w@ == padded(bytes@) && w.value() == be_value(bytes@),
        r matches Err(e) ==> e == CircomError::TooLarge,
{
    let len: usize = bytes.len();
    if len > 32 {
        return Err(CircomError::TooLarge);
    }
    let mut word = [0u8;32];
    let mut i: usize = 0;
    while i < len
        invariant
            i <= len <= 32,
            len == bytes@.len(),
            forall|j: int| 0 <= j < 32 - len ==> #[trigger] word@[j] == 0,
            forall|j: int|
                32 - len <= j < 32 - len + i ==> #[trigger] word@[j] == bytes@[j - (32 - len)],
        decreases len - i,
    {
        word[32 - len + i] = bytes[i];
        i += 1;
    }
    assert(word@ =~= padded(bytes@));
    proof {
        lemma_leading_zeros((32 - len) as nat, bytes@);
    }
    Ok(B256(word))
}

/// The number that bytes spell. Fails exactly where there are more than 32.
pub fn biguint_to_u256(bytes: &[u8]) -> (r: Result<U256, CircomError>)
    ensures
        r is Ok <==> bytes@.len() <= 32,
        r matches Ok(v) ==> v@ == be_value(bytes@),
        r matches Err(e) ==> e == CircomError::TooLarge,
{
    match biguint_to_b256(bytes) {
        Ok(word) => Ok(U256::from_be_bytes(&word)),
        Err(e) => Err(e),
    }
}

/// A proof as the prover hands it out.
#[derive(Debug)]
pub struct CircomProof {
    pub a_x: Vec<u8>,
    pub a_y: Vec<u8>,
    /// The two parts of a coordinate.
    pub b_x: (Vec<u8>, Vec<u8>),
    pub b_y: (Vec<u8>, Vec<u8>),
    pub c_x: Vec<u8>,
    pub c_y: Vec<u8>,
    pub public_inputs: Vec<Vec<u8>>,
}

/// The proof in the form that the verifier contract takes. Within each coordinate of the
/// second point the two parts change places.
pub fn convert_proof(raw: &CircomProof) -> (r: Result<Proof, CircomError>)
    ensures
        r is Ok <==> {
            &&& raw.a_x@.len() <= 32
            &&& raw.a_y@.len() <= 32
            &&& raw.b_x.0@.len() <= 32
            &&& raw.b_x.1@.len() <= 32
            &&& raw.b_y.0@.len() <= 32
            &&& raw.b_y.1@.len() <= 32
            &&& raw.c_x@.len() <= 32
            &&& raw.c_y@.len() <= 32
        },
        r matches Ok(p) ==> {
            &&& p.p_a@[0]@ == be_value(raw.a_x@)
            &&& p.p_a@[1]@ == be_value(raw.a_y@)
            &&& p.p_b@[0]@[0]@ == be_value(raw.b_x.1@)
            &&& p.p_b@[0]@[1]@ == be_value(raw.b_x.0@)
            &&& p.p_b@[1]@[0]@ == be_value(raw.b_y.1@)
            &&& p.p_b@[1]@[1]@ == be_value(raw.b_y.0@)
            &&& p.p_c@[0]@ == be_value(raw.c_x@)
            &&& p.p_c@[1]@ == be_value(raw.c_y@)
        },
        r matches Err(e) ==> e == CircomError::TooLarge,
{
    let a0 = biguint_to_u256(raw.a_x.as_slice());
    let a1 = biguint_to_u256(raw.a_y.as_slice());
    let b00 = biguint_to_u256(raw.b_x.1.as_slice());
    let b01 = biguint_to_u256(raw.b_x.0.as_slice());
    let b10 = biguint_to_u256(raw.b_y.1.as_slice());
    let b11 = biguint_to_u256(raw.b_y.0.as_slice());
    let c0 = biguint_to_u256(raw.c_x.as_slice());
    let c1 = biguint_to_u256(raw.c_y.as_slice());
    match (a0, a1, b00, b01, b10, b11, c0, c1) {
        (Ok(a0), Ok(a1), Ok(b00), Ok(b01), Ok(b10), Ok(b11), Ok(c0), Ok(c1)) => Ok(
            Proof { p_a: [a0, a1], p_b: [[b00, b01], [b10, b11]], p_c: [c0, c1] },
        ),
        _ => Err(CircomError::TooLarge),
    }
}

/// The anchor after an update, which is the first of the public inputs. There have to be
/// six.
pub fn extract_anchor_after(raw: &CircomProof) -> (r: Result<B256, CircomError>)
    ensures
        r is Ok <==> raw.public_inputs@.len() >= 6 && raw.public_inputs@[0]@.len() <= 32,
        r matches Ok(w) ==> w@ == padded(raw.public_inputs@[0]@),
        r matches Err(e) ==> e == (if raw.public_inputs@.len() >= 6 {
            CircomError::TooLarge
        } else {
            CircomError::InvalidSignalCount { got: raw.public_inputs@.len() as usize }
        }),
{
    if raw.public_inputs.len() >= 6 {
        biguint_to_b256(raw.public_inputs[0].as_slice())
    } else {
        Err(CircomError::InvalidSignalCount { got: raw.public_inputs.len() })
    }
}

/// What the circuit of tree updates takes, in decimal, every part being a list.
#[derive(Debug)]
pub struct UpdateInput {
    pub anchor_before: Vec<String>,
    pub block_root_before: Vec<String>,
    pub updates: Vec<String>,
    pub block_index: Vec<String>,
    pub in_block_index: Vec<String>,
    pub nonzero_field: Vec<String>,
    /// The four lists of siblings, one after another.
    pub block_proofs: Vec<String>,
    pub root_path: Vec<String>,
}

/// A list of one text.
fn single(text: String) -> (r: Vec<String>)
    ensures
        text_views(r@) == seq![text@],
{
    let ghost view = text@;
    let mut list: Vec<String> = Vec::new();
    list.push(text);
    assert(text_views(list@) =~= seq![view]);
    list
}

/// Appends the decimals of words.
fn put_decimals(list: &mut Vec<String>, words: &[B256])
    ensures
        text_views(final(list)@) == text_views(old(list)@) + decimals(words@),
{
    let ghost start = text_views(list@);
    let mut i: usize = 0;
    assert(text_views(list@) =~= start + decimals(words@.take(0)));
    while i < words.len()
        invariant
            i <= words@.len(),
            text_views(list@) == start + decimals(words@.take(i as int)),
        decreases words@.len() - i,
    {
        let ghost before = list@;
        let text = b256_to_decimal(words[i]);
        let ghost view = text@;
        list.push(text);
        i += 1;
        assert(text_views(list@) =~= text_views(before).push(view));
        assert(decimals(words@.take(i as int)) =~= decimals(words@.take(i - 1)).push(view));
        assert(text_views(list@) =~= start + decimals(words@.take(i as int)));
    }
    assert(words@.take(i as int) =~= words@);
}

/// What the circuit of tree updates takes.
pub fn update_input(
    anchor_before: B256,
    block_root_before: B256,
    leaves: [B256; 3],
    block_index: u64,
    in_block_index: u64,
    nonzero_field: B256,
    block_proofs: [[B256; 16]; 4],
    root_path: [B256; 28],
) -> (r: UpdateInput)
    ensures
        text_views(r.anchor_before@) == seq![decimal(anchor_before.value())],
        text_views(r.block_root_before@) == seq![decimal(block_root_before.value())],
        text_views(r.updates@) == decimals(leaves@),
        text_views(r.block_index@) == seq![decimal(block_index as nat)],
        text_views(r.in_block_index@) == seq![decimal(in_block_index as nat)],
        text_views(r.nonzero_field@) == seq![decimal(nonzero_field.value())],
        text_views(r.block_proofs@) == decimals(block_proofs@[0]@) + decimals(block_proofs@[1]@)
            + decimals(block_proofs@[2]@) + decimals(block_proofs@[3]@),
        text_views(r.root_path@) == decimals(root_path@),
{
    let mut updates: Vec<String> = Vec::new();
    assert(text_views(updates@) =~= Seq::empty());
    put_decimals(&mut updates, leaves.as_slice());
    assert(text_views(updates@) =~= decimals(leaves@));
    let mut proofs: Vec<String> = Vec::new();
    let row0 = block_proofs[0];
    let row1 = block_proofs[1];
    let row2 = block_proofs[2];
    let row3 = block_proofs[3];
    assert(text_views(proofs@) =~= Seq::empty());
    put_decimals(&mut proofs, row0.as_slice());
    put_decimals(&mut proofs, row1.as_slice());
    put_decimals(&mut proofs, row2.as_slice());
    put_decimals(&mut proofs, row3.as_slice());
    assert(text_views(proofs@) =~= decimals(row0@) + decimals(row1@) + decimals(row2@) + decimals(
        row3@,
    ));
    let mut path: Vec<String> = Vec::new();
    assert(text_views(path@) =~= Seq::empty());
    put_decimals(&mut path, root_path.as_slice());
    assert(text_views(path@) =~= decimals(root_path@));
    UpdateInput {
        anchor_before: single(b256_to_decimal(anchor_before)),
        block_root_before: single(b256_to_decimal(block_root_before)),
        updates,
        block_index: single(u256_to_text(&U256::from_u64(block_index))),
        in_block_index: single(u256_to_text(&U256::from_u64(in_block_index))),
        nonzero_field: single(b256_to_decimal(nonzero_field)),
        block_proofs: proofs,
        root_path: path,
    }
}

} // verus!
