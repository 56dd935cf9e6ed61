//! Fixed-size words and the block header that the rest of the library works on.

use vstd::arithmetic::power::{lemma_pow1, lemma_pow_adds, pow};
use vstd::array::spec_array_fill_for_copy_type;
use vstd::prelude::*;

verus! {

/// The number that `bytes` spells, most significant byte first.
pub open spec fn be_value(bytes: Seq<u8>) -> nat
    decreases bytes.len(),
{
    if bytes.len() == 0 {
        0
    } else {
        be_value(bytes.drop_last()) * 256 + bytes.last() as nat
    }
}

/// The `len` low bytes of `value`, most significant byte first.
pub open spec fn be_bytes(value: nat, len: nat) -> Seq<u8>
    decreases len,
{
    if len == 0 {
        Seq::empty()
    } else {
        be_bytes(value / 256, (len - 1) as nat).push((value % 256) as u8)
    }
}

/// Bytes are recovered from the number that they spell.
pub proof fn lemma_be_bytes_of_value(bytes: Seq<u8>)
    ensures
        be_bytes(be_value(bytes), bytes.len()) == bytes,
    decreases bytes.len(),
{
    if bytes.len() > 0 {
        let init = bytes.drop_last();
        lemma_be_bytes_of_value(init);
        let v = be_value(bytes);
        assert(v / 256 == be_value(init));
        assert(v % 256 == bytes.last() as nat);
        assert(be_bytes(v, bytes.len()) =~= init.push(bytes.last()));
        assert(init.push(bytes.last()) =~= bytes);
    } else {
        assert(be_bytes(0, 0) =~= bytes);
    }
}

/// A number that fits is recovered from its bytes.
pub proof fn lemma_be_value_of_bytes(value: nat, len: nat)
    requires
        value < pow(256, len),
    ensures
        be_bytes(value, len).len() == len,
        be_value(be_bytes(value, len)) == value,
    decreases len,
{
    reveal(pow);
    if len > 0 {
        let rest = (len - 1) as nat;
        assert(pow(256, len) == 256 * pow(256, rest));
        assert(value / 256 < pow(256, rest));
        lemma_be_value_of_bytes(value / 256, rest);
        let b = be_bytes(value, len);
        assert(b.drop_last() =~= be_bytes(value / 256, rest));
    }
}

/// What bytes spell is less than what as many bytes can count to.
pub proof fn lemma_be_value_bound(bytes: Seq<u8>)
    ensures
        be_value(bytes) < pow(256, bytes.len()),
    decreases bytes.len(),
{
    reveal(pow);
    if bytes.len() > 0 {
        lemma_be_value_bound(bytes.drop_last());
        assert(pow(256, bytes.len()) == 256 * pow(256, (bytes.len() - 1) as nat));
    }
}

/// Zeros in front do not change the number that bytes spell.
pub proof fn lemma_leading_zeros(zeros: nat, bytes: Seq<u8>)
    ensures
        be_value(Seq::new(zeros, |i: int| 0u8) + bytes) == be_value(bytes),
    decreases bytes.len(), zeros,
{
    let all = Seq::new(zeros, |i: int| 0u8) + bytes;
    if bytes.len() > 0 {
        lemma_leading_zeros(zeros, bytes.drop_last());
        assert(all.drop_last() =~= Seq::new(zeros, |i: int| 0u8) + bytes.drop_last());
    } else if zeros > 0 {
        lemma_leading_zeros((zeros - 1) as nat, bytes);
        assert(all.drop_last() =~= Seq::new((zeros - 1) as nat, |i: int| 0u8) + bytes);
    } else {
        assert(all =~= bytes);
    }
}

/// What seven and eight bytes can count to.
pub proof fn lemma_pow_256_8()
    ensures
        pow(256, 7) == 0x100_0000_0000_0000,
        pow(256, 8) == 0x1_0000_0000_0000_0000,
{
    lemma_pow1(256);
    lemma_pow_adds(256, 1, 1);
    assert(pow(256, 2) == 0x1_0000);
    lemma_pow_adds(256, 2, 1);
    assert(pow(256, 3) == 0x100_0000);
    lemma_pow_adds(256, 2, 2);
    assert(pow(256, 4) == 0x1_0000_0000);
    lemma_pow_adds(256, 4, 3);
    lemma_pow_adds(256, 4, 4);
}

/// What 32 bytes can count to.
pub proof fn lemma_pow_256_32()
    ensures
        pow(256, 32) == two_256(),
{
    lemma_pow_256_8();
    lemma_pow_adds(256, 8, 8);
    lemma_pow_adds(256, 16, 16);
    let b: int = 0x1_0000_0000_0000_0000;
    assert(pow(256, 16) == b * b);
    assert(pow(256, 32) == (b * b) * (b * b));
    assert(b * b * b * b == (b * b) * (b * b)) by (nonlinear_arith);
}

/// `be_bytes` always has the length that was asked for.
pub proof fn lemma_be_bytes_len(value: nat, len: nat)
    ensures
        be_bytes(value, len).len() == len,
    decreases len,
{
    if len > 0 {
        lemma_be_bytes_len(value / 256, (len - 1) as nat);
    }
}

/// A 32-byte word.
#[derive(Clone, Copy, Debug, Eq, Hash)]
pub struct B256(pub [u8; 32]);

impl View for B256 {
    type V = Seq<u8>;

    open spec fn view(&self) -> Seq<u8> {
        self.0@
    }
}

impl PartialEq for B256 {
    fn eq(&self, other: &Self) -> (r: bool) {
        let mut i: usize = 0;
        while i < 32
            invariant
                i <= 32,
                forall|k: int| 0 <= k < i ==> self.0[k] == other.0[k],
            decreases 32 - i,
        {
            if self.0[i] != other.0[i] {
                assert(self.0@[i as int] != other.0@[i as int]);
                return false;
            }
            i += 1;
        }
        assert(self.0 =~= other.0);
        true
    }
}

impl vstd::std_specs::cmp::PartialEqSpecImpl for B256 {
    open spec fn obeys_eq_spec() -> bool {
        true
    }

    open spec fn eq_spec(&self, other: &Self) -> bool {
        self.0 == other.0
    }
}

/// Words with the same bytes are the same word.
pub proof fn lemma_b256_ext(a: B256, b: B256)
    ensures
        a == b <==> a@ == b@,
{
    if a@ == b@ {
        assert forall|i: int| 0 <= i < 32 implies a.0[i] == b.0[i] by {
            assert(a@[i] == b@[i]);
        }
        assert(a.0 =~= b.0);
    }
}

impl B256 {
    /// Whether this is the all-zero word.
    pub open spec fn is_zero(self) -> bool {
        forall|i: int| 0 <= i < 32 ==> self@[i] == 0
    }

    /// The word as a number.
    pub open spec fn value(self) -> nat {
        be_value(self@)
    }

    /// The word whose bytes are all zero.
    pub fn zero() -> (r: B256)
        ensures
            r == zero_word(),
            r@ == Seq::new(32, |i: int| 0u8),
    {
        let r = B256([0u8; 32]);
        assert(r@ =~= Seq::new(32, |i: int| 0u8));
        proof {
            lemma_b256_ext(r, zero_word());
            lemma_zero_word();
        }
        r
    }

    /// The word whose bytes are all `byte`.
    pub fn repeat_byte(byte: u8) -> (r: B256)
        ensures
            r@ == Seq::new(32, |i: int| byte),
    {
        let r = B256([byte; 32]);
        assert(r@ =~= Seq::new(32, |i: int| byte));
        r
    }
}

/// The all-zero word.
pub open spec fn zero_word() -> B256 {
    B256(spec_array_fill_for_copy_type::<u8, 32>(0))
}

/// What the all-zero word holds, and that it is the only such word.
pub proof fn lemma_zero_word()
    ensures
        zero_word()@ == Seq::new(32, |i: int| 0u8),
        forall|w: B256| w.is_zero() <==> w == zero_word(),
{
    assert(zero_word()@ =~= Seq::new(32, |i: int| 0u8));
    assert forall|w: B256| w.is_zero() <==> w == zero_word() by {
        lemma_b256_ext(w, zero_word());
        if w.is_zero() {
            assert(w@ =~= zero_word()@);
        }
        if w == zero_word() {
            assert forall|i: int| 0 <= i < 32 implies w@[i] == 0 by {
                assert(zero_word()@[i] == 0);
            }
        }
    }
}

/// A 20-byte account address.
#[derive(Clone, Copy, Debug, Eq, Hash)]
pub struct Address(pub [u8; 20]);

impl View for Address {
    type V = Seq<u8>;

    open spec fn view(&self) -> Seq<u8> {
        self.0@
    }
}

impl PartialEq for Address {
    fn eq(&self, other: &Self) -> (r: bool) {
        let mut i: usize = 0;
        while i < 20
            invariant
                i <= 20,
                forall|k: int| 0 <= k < i ==> self.0[k] == other.0[k],
            decreases 20 - i,
        {
            if self.0[i] != other.0[i] {
                assert(self.0@[i as int] != other.0@[i as int]);
                return false;
            }
            i += 1;
        }
        assert(self.0 =~= other.0);
        true
    }
}

impl vstd::std_specs::cmp::PartialEqSpecImpl for Address {
    open spec fn obeys_eq_spec() -> bool {
        true
    }

    open spec fn eq_spec(&self, other: &Self) -> bool {
        self.0 == other.0
    }
}

/// The all-zero address.
pub open spec fn zero_address() -> Address {
    Address(spec_array_fill_for_copy_type::<u8, 20>(0))
}

impl Address {
    /// The address whose bytes are all zero.
    pub fn zero() -> (r: Address)
        ensures
            r == zero_address(),
            r@ == Seq::new(20, |i: int| 0u8),
    {
        let r = Address([0u8; 20]);
        assert(r@ =~= Seq::new(20, |i: int| 0u8));
        r
    }

    /// The address whose bytes are all `byte`.
    pub fn repeat_byte(byte: u8) -> (r: Address)
        ensures
            r@ == Seq::new(20, |i: int| byte),
    {
        let r = Address([byte; 20]);
        assert(r@ =~= Seq::new(20, |i: int| byte));
        r
    }
}

/// A 256-bit unsigned integer in four 64-bit limbs, least significant first.
#[derive(Clone, Copy, Debug, PartialEq, Eq, Hash, Structural)]
pub struct U256 {
    pub l0: u64,
    pub l1: u64,
    pub l2: u64,
    pub l3: u64,
}

impl View for U256 {
    type V = nat;

    open spec fn view(&self) -> nat {
        (self.l0 + 0x1_0000_0000_0000_0000 * (self.l1 + 0x1_0000_0000_0000_0000 * (self.l2
            + 0x1_0000_0000_0000_0000 * self.l3))) as nat
    }
}

/// Two to the power of 256.
pub open spec fn two_256() -> nat {
    0x1_0000_0000_0000_0000 * 0x1_0000_0000_0000_0000 * 0x1_0000_0000_0000_0000
        * 0x1_0000_0000_0000_0000
}

/// An integer fits in 256 bits, and no two hold the same number.
pub proof fn lemma_u256_bounds(a: U256, b: U256)
    ensures
        a@ < two_256(),
        a@ == b@ <==> a == b,
{
    let base: int = 0x1_0000_0000_0000_0000;
    let (a2, b2) = (a.l2 + base * a.l3, b.l2 + base * b.l3);
    let (a1, b1) = (a.l1 + base * a2, b.l1 + base * b2);
    assert(a2 <= base * base - 1);
    assert(a1 <= base * base * base - 1);
    if a@ == b@ {
        assert(a@ % base as nat == a.l0 && b@ % base as nat == b.l0);
        assert(a1 == b1);
        assert(a1 % base == a.l1 && b1 % base == b.l1);
        assert(a2 == b2);
        assert(a2 % base == a.l2 && b2 % base == b.l2);
    }
}

impl U256 {
    /// Zero.
    pub fn zero() -> (r: U256)
        ensures
            r@ == 0,
    {
        U256 { l0: 0, l1: 0, l2: 0, l3: 0 }
    }

    /// The integer with the value of `v`.
    pub fn from_u64(v: u64) -> (r: U256)
        ensures
            r@ == v,
    {
        U256 { l0: v, l1: 0, l2: 0, l3: 0 }
    }

    /// The value as a `u64`, where it fits.
    pub fn to_u64(&self) -> (r: Option<u64>)
        ensures
            r is Some <==> self@ <= u64::MAX,
            r matches Some(v) ==> v == self@,
    {
        if self.l1 == 0 && self.l2 == 0 && self.l3 == 0 {
            Some(self.l0)
        } else {
            None
        }
    }

    /// Whether the value is zero.
    pub fn is_zero(&self) -> (r: bool)
        ensures
            r == (self@ == 0),
    {
        self.l0 == 0 && self.l1 == 0 && self.l2 == 0 && self.l3 == 0
    }

    /// Whether the value is odd.
    pub fn is_odd(&self) -> (r: bool)
        ensures
            r == (self@ % 2 == 1),
    {
        self.l0 % 2 == 1
    }

    /// `alloy_primitives::U256::mul_mod`: the product of the two values, reduced
    /// modulo `modulus` without overflow in between.
    #[verifier::external_body]
    pub(crate) fn mul_mod(&self, rhs: &U256, modulus: &U256) -> (r: U256)
        requires
            modulus@ > 0,
        ensures
            r@ == (self@ * rhs@) % modulus@,
    {
        let m = alloy_primitives::U256::from_limbs([modulus.l0, modulus.l1, modulus.l2, modulus.l3]);
        let a = alloy_primitives::U256::from_limbs([self.l0, self.l1, self.l2, self.l3]);
        let b = alloy_primitives::U256::from_limbs([rhs.l0, rhs.l1, rhs.l2, rhs.l3]);
        let [l0, l1, l2, l3] = a.mul_mod(b, m).into_limbs();
        U256 { l0, l1, l2, l3 }
    }

    /// The `%` operator of `alloy_primitives::U256`: the remainder of the division
    /// by `rhs`.
    #[verifier::external_body]
    pub(crate) fn rem(&self, rhs: &U256) -> (r: U256)
        requires
            rhs@ > 0,
        ensures
            r@ == self@ % rhs@,
    {
        let a = alloy_primitives::U256::from_limbs([self.l0, self.l1, self.l2, self.l3]);
        let b = alloy_primitives::U256::from_limbs([rhs.l0, rhs.l1, rhs.l2, rhs.l3]);
        let [l0, l1, l2, l3] = (a % b).into_limbs();
        U256 { l0, l1, l2, l3 }
    }

    /// The `/` operator of `alloy_primitives::U256`: the quotient of the division by
    /// `rhs`, rounded down.
    #[verifier::external_body]
    pub(crate) fn div(&self, rhs: &U256) -> (r: U256)
        requires
            rhs@ > 0,
        ensures
            r@ == self@ / rhs@,
    {
        let a = alloy_primitives::U256::from_limbs([self.l0, self.l1, self.l2, self.l3]);
        let b = alloy_primitives::U256::from_limbs([rhs.l0, rhs.l1, rhs.l2, rhs.l3]);
        let [l0, l1, l2, l3] = (a / b).into_limbs();
        U256 { l0, l1, l2, l3 }
    }

    /// The `>>` operator of `alloy_primitives::U256`, by one bit: half the value,
    /// rounded down.
    #[verifier::external_body]
    pub(crate) fn half(&self) -> (r: U256)
        ensures
            r@ == self@ / 2,
    {
        let a = alloy_primitives::U256::from_limbs([self.l0, self.l1, self.l2, self.l3]);
        let [l0, l1, l2, l3] = (a >> 1usize).into_limbs();
        U256 { l0, l1, l2, l3 }
    }

    /// `alloy_primitives::U256::to_be_bytes`: the 32 bytes of the value, most
    /// significant first.
    #[verifier::external_body]
    pub(crate) fn to_be_bytes(&self) -> (r: B256)
        ensures
            r@ == be_bytes(self@, 32),
    {
        let a = alloy_primitives::U256::from_limbs([self.l0, self.l1, self.l2, self.l3]);
        B256(a.to_be_bytes())
    }

    /// `alloy_primitives::U256::from_be_bytes`: the number that 32 bytes spell, most
    /// significant first.
    #[verifier::external_body]
    pub(crate) fn from_be_bytes(bytes: &B256) -> (r: U256)
        ensures
            r@ == be_value(bytes@),
    {
        let [l0, l1, l2, l3] = alloy_primitives::U256::from_be_bytes(bytes.0).into_limbs();
        U256 { l0, l1, l2, l3 }
    }
}

/// Order of the BN254 scalar field.
pub open spec fn bn254_order() -> U256 {
    U256 {
        l0: 0x43E1F593F0000001,
        l1: 0x2833E84879B97091,
        l2: 0xB85045B68181585D,
        l3: 0x30644E72E131A029,
    }
}

/// The order of the BN254 scalar field.
pub fn bn254_scalar_order() -> (r: U256)
    ensures
        r == bn254_order(),
        r@ > 0,
{
    U256 {
        l0: 0x43E1F593F0000001,
        l1: 0x2833E84879B97091,
        l2: 0xB85045B68181585D,
        l3: 0x30644E72E131A029,
    }
}

/// A day and a position within it.
#[derive(Clone, Copy, Debug, PartialEq, Eq, Structural)]
pub struct TimestampAndIndex {
    pub day: u128,
    pub index: u128,
}

/// The header of a rollup block, as posted on chain.
#[derive(Debug)]
pub struct BlockData {
    /// Root of the global tree after the block.
    pub anchor: B256,
    pub timestamp: U256,
    pub num_transactions: U256,
    pub num_deposits: U256,
    pub block_nr: U256,
    /// Position of the block in the global tree.
    pub block_index: TimestampAndIndex,
    pub sequencer: Address,
    /// Versioned hashes of the blobs that hold the block.
    pub blobhashes: Vec<B256>,
}

/// What a block header says.
#[verifier::ext_equal]
pub struct BlockView {
    pub anchor: B256,
    pub timestamp: U256,
    pub num_transactions: U256,
    pub num_deposits: U256,
    pub block_nr: U256,
    pub block_index: TimestampAndIndex,
    pub sequencer: Address,
    pub blobhashes: Seq<B256>,
}

impl View for BlockData {
    type V = BlockView;

    open spec fn view(&self) -> BlockView {
        BlockView {
            anchor: self.anchor,
            timestamp: self.timestamp,
            num_transactions: self.num_transactions,
            num_deposits: self.num_deposits,
            block_nr: self.block_nr,
            block_index: self.block_index,
            sequencer: self.sequencer,
            blobhashes: self.blobhashes@,
        }
    }
}

impl Clone for BlockData {
    fn clone(&self) -> (r: Self)
        ensures
            r@ == self@,
    {
        let blobhashes = self.blobhashes.clone();
        assert(blobhashes@ =~= self.blobhashes@);
        BlockData {
            anchor: self.anchor,
            timestamp: self.timestamp,
            num_transactions: self.num_transactions,
            num_deposits: self.num_deposits,
            block_nr: self.block_nr,
            block_index: self.block_index,
            sequencer: self.sequencer,
            blobhashes,
        }
    }
}

/// A Groth16 proof in the form that the verifier contract takes.
#[derive(Clone, Copy, Debug)]
pub struct Proof {
    pub p_a: [U256; 2],
    pub p_b: [[U256; 2]; 2],
    pub p_c: [U256; 2],
}

/// The order of the BN254 scalar field in decimal.
pub proof fn law_scalar_order()
    ensures
        bn254_order()@
            == 21888242871839275222246405745257275088548364400416034343698204186575808495617,
{
}

/// What a header says is what it holds, part by part.
pub proof fn law_header_says_what_it_holds(block: BlockData)
    ensures
        block@.anchor == block.anchor,
        block@.timestamp == block.timestamp,
        block@.num_transactions == block.num_transactions,
        block@.num_deposits == block.num_deposits,
        block@.block_nr == block.block_nr,
        block@.block_index == block.block_index,
        block@.sequencer == block.sequencer,
        block@.blobhashes == block.blobhashes@,
{
}

/// Words and accounts are told apart by their bytes, and numbers by their limbs, the first being
/// the least significant.
pub proof fn law_values_of_words(word: B256, account: Address, number: U256)
    ensures
        word@ == word.0@,
        account@ == account.0@,
        number@ == number.l0 + number.l1 * 0x1_0000_0000_0000_0000 + number.l2
            * 0x1_0000_0000_0000_0000_0000_0000_0000_0000 + number.l3
            * 0x1_0000_0000_0000_0000_0000_0000_0000_0000_0000_0000_0000_0000,
{
}

/// Bytes spell a number with the first of them as the most significant: a byte in front adds to
/// what the others spell, and one byte spells itself.
pub proof fn law_bytes_spell_from_the_front(byte: u8, rest: Seq<u8>)
    ensures
        be_value(seq![byte] + rest) == byte * pow(256, rest.len()) + be_value(rest),
        be_value(Seq::empty()) == 0,
    decreases rest.len(),
{
    let all = seq![byte] + rest;
    reveal(pow);
    if rest.len() > 0 {
        let front = rest.drop_last();
        law_bytes_spell_from_the_front(byte, front);
        assert(all.drop_last() =~= seq![byte] + front);
        let p = pow(256, front.len());
        assert(pow(256, rest.len()) == 256 * p);
        assert((byte * p) * 256 == byte * (256 * p)) by (nonlinear_arith);
    } else {
        assert(all.drop_last() =~= Seq::<u8>::empty());
        assert(be_value(all.drop_last()) == 0);
        assert(pow(256, 0) == 1);
        assert(byte * 1 == byte);
    }
}

} // verus!
