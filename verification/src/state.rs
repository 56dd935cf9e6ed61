//! What is kept in the database, as the columns of its rows.
//!
//! The database knows signed 64-bit numbers only, so that larger ones are kept as the
//! negative numbers with the same bits.

use crate::kzg::read_word;
use crate::types::{
    be_bytes, be_value, lemma_b256_ext, lemma_be_bytes_len, lemma_be_value_bound, lemma_be_value_of_bytes,
    lemma_pow_256_32, lemma_pow_256_8, lemma_u256_bounds, Address, BlockData, BlockView,
    TimestampAndIndex, B256, U256,
};
use crate::validators::nullifier::NullifierRecord;
use vstd::arithmetic::power::lemma_pow_strictly_increases;
use vstd::prelude::*;

verus! {

/// Number of bytes per blob.
pub const STORED_BLOB_SIZE: usize = 131072;

/// Why a row was not written or not read.
#[derive(Clone, Copy, Debug, PartialEq, Eq, Structural)]
pub enum StateError {
    /// A block number has more than 64 bits.
    BlockNumberTooLarge,
    /// A number of transactions has more than 64 bits.
    TransactionCountTooLarge,
    /// A number of deposits has more than 64 bits.
    DepositCountTooLarge,
    /// A timestamp is not kept in 32 bytes.
    InvalidTimestamp,
    /// The last processed block is not kept in eight bytes.
    InvalidLastProcessedBlock { got: usize },
    /// A blob has another size than 131072 bytes.
    InvalidBlobSize { got: usize },
}

impl StateError {
    /// What an error says.
    pub open spec fn text(self) -> &'static str {
        match self {
            StateError::BlockNumberTooLarge => "Block number exceeds u64::MAX",
            StateError::TransactionCountTooLarge => "numTransactions exceeds u64::MAX",
            StateError::DepositCountTooLarge => "numDeposits exceeds u64::MAX",
            StateError::InvalidTimestamp => "Invalid timestamp column",
            StateError::InvalidLastProcessedBlock { .. } => "Invalid last_processed_block format",
            StateError::InvalidBlobSize { .. } => "Invalid blob size",
        }
    }

    /// What the error says.
    pub fn message(&self) -> (r: &'static str)
        ensures
            r@ == self.text()@,
    {
        match self {
            StateError::BlockNumberTooLarge => "Block number exceeds u64::MAX",
            StateError::TransactionCountTooLarge => "numTransactions exceeds u64::MAX",
            StateError::DepositCountTooLarge => "numDeposits exceeds u64::MAX",
            StateError::InvalidTimestamp => "Invalid timestamp column",
            StateError::InvalidLastProcessedBlock { .. } => "Invalid last_processed_block format",
            StateError::InvalidBlobSize { .. } => "Invalid blob size",
        }
    }
}

/// A challenge that could not be submitted and waits to be tried again.
#[derive(Debug)]
pub struct PendingChallenge {
    pub id: i64,
    pub block_nr: u64,
    pub l1_block_number: u64,
    /// Name of the kind of fraud.
    pub fraud_type: String,
    pub fraud_data: Vec<u8>,
    pub retry_count: i32,
    pub last_error: Option<String>,
}

/// The column for a number: the number with the same 64 bits.
pub open spec fn column_of(value: u64) -> int {
    if value <= i64::MAX {
        value as int
    } else {
        value - 0x1_0000_0000_0000_0000
    }
}

/// The number in a column.
pub open spec fn number_in(column: i64) -> int {
    if column >= 0 {
        column as int
    } else {
        column + 0x1_0000_0000_0000_0000
    }
}

/// A number is recovered from its column.
pub proof fn law_column_round_trip(value: u64)
    ensures
        i64::MIN <= column_of(value) <= i64::MAX,
        number_in(column_of(value) as i64) == value,
{
}

/// The column for a number.
pub fn to_column(value: u64) -> (r: i64)
    ensures
        r == column_of(value),
{
    if value <= 0x7FFF_FFFF_FFFF_FFFF {
        value as i64
    } else {
        (value - 0x8000_0000_0000_0000) as i64 + i64::MIN
    }
}

/// The number in a column.
pub fn from_column(column: i64) -> (r: u64)
    ensures
        r == number_in(column),
{
    if column >= 0 {
        column as u64
    } else {
        (column - i64::MIN) as u64 + 0x8000_0000_0000_0000
    }
}

/// The low 32 bits of the number in a column.
pub fn low_u32(column: i64) -> (r: u32)
    ensures
        r == number_in(column) % 0x1_0000_0000,
{
    (from_column(column) % 0x1_0000_0000) as u32
}

/// The low 64 bits of a number, as a column.
fn low_column(value: u128) -> (r: i64)
    ensures
        r == column_of((value % 0x1_0000_0000_0000_0000) as u64),
{
    to_column((value % 0x1_0000_0000_0000_0000) as u64)
}

/// A column as a 128-bit number, a negative one being filled up with ones.
pub open spec fn widened(column: i64) -> int {
    if column >= 0 {
        column as int
    } else {
        column + 0x1_0000_0000_0000_0000 * 0x1_0000_0000_0000_0000
    }
}

/// A column as a 128-bit number.
fn widen(column: i64) -> (r: u128)
    ensures
        r == widened(column),
{
    if column >= 0 {
        column as u128
    } else {
        u128::MAX - (-(column + 1)) as u128
    }
}

/// A row of the table of blocks.
#[derive(Debug)]
pub struct BlockRow {
    pub block_nr: i64,
    pub anchor: Vec<u8>,
    pub timestamp: Vec<u8>,
    pub num_transactions: i64,
    pub num_deposits: i64,
    pub block_index_day: i64,
    pub block_index_index: i64,
    pub sequencer: Vec<u8>,
    /// The versioned hashes, one after another.
    pub blobhashes: Vec<u8>,
    pub l1_block_number: i64,
}

/// What a row of the table of blocks says.
#[verifier::ext_equal]
pub struct BlockRowView {
    pub block_nr: i64,
    pub anchor: Seq<u8>,
    pub timestamp: Seq<u8>,
    pub num_transactions: i64,
    pub num_deposits: i64,
    pub block_index_day: i64,
    pub block_index_index: i64,
    pub sequencer: Seq<u8>,
    pub blobhashes: Seq<u8>,
    pub l1_block_number: i64,
}

impl View for BlockRow {
    type V = BlockRowView;

    open spec fn view(&self) -> BlockRowView {
        BlockRowView {
            block_nr: self.block_nr,
            anchor: self.anchor@,
            timestamp: self.timestamp@,
            num_transactions: self.num_transactions,
            num_deposits: self.num_deposits,
            block_index_day: self.block_index_day,
            block_index_index: self.block_index_index,
            sequencer: self.sequencer@,
            blobhashes: self.blobhashes@,
            l1_block_number: self.l1_block_number,
        }
    }
}

/// Words, one after another.
pub open spec fn words_bytes(words: Seq<B256>) -> Seq<u8>
    decreases words.len(),
{
    if words.len() == 0 {
        Seq::empty()
    } else {
        words_bytes(words.drop_last()) + words.last()@
    }
}

/// Whether words are those that bytes hold one after another, a rest of less than a word
/// being left out.
pub open spec fn words_in(words: Seq<B256>, bytes: Seq<u8>) -> bool {
    &&& words.len() == bytes.len() / 32
    &&& forall|i: int|
        0 <= i < words.len() ==> (#[trigger] words[i])@ == bytes.subrange(32 * i, 32 * i + 32)
}

/// Words, one after another.
pub fn encode_words(words: &[B256]) -> (r: Vec<u8>)
    ensures
        r@ == words_bytes(words@),
{
    let mut bytes: Vec<u8> = Vec::new();
    let mut i: usize = 0;
    while i < words.len()
        invariant
            i <= words@.len(),
            bytes@ == words_bytes(words@.take(i as int)),
        decreases words@.len() - i,
    {
        let ghost start = bytes@;
        let word = words[i];
        let mut k: usize = 0;
        assert(bytes@ =~= start + word@.take(0));
        while k < 32
            invariant
                k <= 32,
                bytes@ == start + word@.take(k as int),
            decreases 32 - k,
        {
            bytes.push(word.0[k]);
            k += 1;
            assert(bytes@ =~= start + word@.take(k as int));
        }
        proof {
            assert(word@.take(32) =~= word@);
            assert(words@.take(i + 1).drop_last() =~= words@.take(i as int));
        }
        i += 1;
    }
    assert(words@.take(i as int) =~= words@);
    bytes
}

/// The words that bytes hold one after another. A rest of less than a word is left out.
pub fn decode_words(bytes: &[u8]) -> (r: Vec<B256>)
    ensures
        words_in(r@, bytes@),
{
    let len: usize = bytes.len();
    let count: usize = len / 32;
    let mut words: Vec<B256> = Vec::new();
    let mut i: usize = 0;
    while i < count
        invariant
            i <= count,
            count == len / 32,
            len == bytes@.len(),
            words@.len() == i,
            forall|j: int|
                0 <= j < i ==> (#[trigger] words@[j])@ == bytes@.subrange(32 * j, 32 * j + 32),
        decreases count - i,
    {
        words.push(read_word(bytes, i * 32));
        i += 1;
    }
    words
}

/// Words are recovered from their bytes.
pub proof fn law_words_round_trip(words: Seq<B256>, decoded: Seq<B256>)
    requires
        words_in(decoded, words_bytes(words)),
    ensures
        decoded == words,
{
    lemma_words_bytes(words);
    assert forall|i: int| 0 <= i < words.len() implies decoded[i] == words[i] by {
        lemma_b256_ext(decoded[i], words[i]);
    }
    assert(decoded =~= words);
}

/// Where each word is among the bytes.
proof fn lemma_words_bytes(words: Seq<B256>)
    ensures
        words_bytes(words).len() == 32 * words.len(),
        forall|i: int|
            0 <= i < words.len() ==> words_bytes(words).subrange(32 * i, 32 * i + 32) == (
            #[trigger] words[i])@,
    decreases words.len(),
{
    if words.len() > 0 {
        let front = words.drop_last();
        lemma_words_bytes(front);
        let all = words_bytes(words);
        assert forall|i: int| 0 <= i < words.len() implies all.subrange(32 * i, 32 * i + 32) == (
        #[trigger] words[i])@ by {
            if i < front.len() {
                assert(front[i] == words[i]);
                assert(all.subrange(32 * i, 32 * i + 32) =~= words_bytes(front).subrange(
                    32 * i,
                    32 * i + 32,
                ));
            } else {
                assert(all.subrange(32 * i, 32 * i + 32) =~= words[i]@);
            }
        }
    }
}

/// The row for a block.
pub open spec fn row_of(block: BlockView, l1_block_number: u64) -> Result<BlockRowView, StateError> {
    if block.block_nr@ > u64::MAX {
        Err(StateError::BlockNumberTooLarge)
    } else if block.num_transactions@ > u64::MAX {
        Err(StateError::TransactionCountTooLarge)
    } else if block.num_deposits@ > u64::MAX {
        Err(StateError::DepositCountTooLarge)
    } else {
        Ok(
            BlockRowView {
                block_nr: column_of(block.block_nr@ as u64) as i64,
                anchor: block.anchor@,
                timestamp: be_bytes(block.timestamp@, 32),
                num_transactions: column_of(block.num_transactions@ as u64) as i64,
                num_deposits: column_of(block.num_deposits@ as u64) as i64,
                block_index_day: column_of(
                    (block.block_index.day % 0x1_0000_0000_0000_0000) as u64,
                ) as i64,
                block_index_index: column_of(
                    (block.block_index.index % 0x1_0000_0000_0000_0000) as u64,
                ) as i64,
                sequencer: block.sequencer@,
                blobhashes: words_bytes(block.blobhashes),
                l1_block_number: column_of(l1_block_number) as i64,
            },
        )
    }
}

/// The bytes of a word.
fn word_vec(word: &B256) -> (r: Vec<u8>)
    ensures
        r@ == word@,
{
    let mut bytes: Vec<u8> = Vec::new();
    let mut k: usize = 0;
    while k < 32
        invariant
            k <= 32,
            bytes@ == word@.take(k as int),
        decreases 32 - k,
    {
        bytes.push(word.0[k]);
        k += 1;
        assert(bytes@ =~= word@.take(k as int));
    }
    assert(word@.take(32) =~= word@);
    bytes
}

/// The bytes of an address.
fn address_vec(address: &Address) -> (r: Vec<u8>)
    ensures
        r@ == address@,
{
    let mut bytes: Vec<u8> = Vec::new();
    let mut k: usize = 0;
    while k < 20
        invariant
            k <= 20,
            bytes@ == address@.take(k as int),
        decreases 20 - k,
    {
        bytes.push(address.0[k]);
        k += 1;
        assert(bytes@ =~= address@.take(k as int));
    }
    assert(address@.take(20) =~= address@);
    bytes
}

/// The address of 20 bytes.
fn read_address(bytes: &Vec<u8>) -> (r: Address)
    requires
        bytes@.len() == 20,
    ensures
        r@ == bytes@,
{
    let mut address = [0u8;20];
    let mut k: usize = 0;
    while k < 20
        invariant
            k <= 20,
            bytes@.len() == 20,
            forall|j: int| 0 <= j < k ==> address@[j] == bytes@[j],
        decreases 20 - k,
    {
        address[k] = bytes[k];
        k += 1;
    }
    assert(address@ =~= bytes@);
    Address(address)
}

/// The row for a block. Fails exactly where one of its numbers has more than 64 bits.
pub fn block_to_row(block_data: &BlockData, l1_block_number: u64) -> (r: Result<
    BlockRow,
    StateError,
>)
    ensures
        r matches Ok(row) ==> row_of(block_data@, l1_block_number) == Ok::<_, StateError>(row@),
        r matches Err(e) ==> row_of(block_data@, l1_block_number) == Err::<BlockRowView, _>(e),
{
    let block_nr: u64 = match block_data.block_nr.to_u64() {
        Some(n) => n,
        None => {
            return Err(StateError::BlockNumberTooLarge);
        },
    };
    let num_transactions: u64 = match block_data.num_transactions.to_u64() {
        Some(n) => n,
        None => {
            return Err(StateError::TransactionCountTooLarge);
        },
    };
    let num_deposits: u64 = match block_data.num_deposits.to_u64() {
        Some(n) => n,
        None => {
            return Err(StateError::DepositCountTooLarge);
        },
    };
    Ok(
        BlockRow {
            block_nr: to_column(block_nr),
            anchor: word_vec(&block_data.anchor),
            timestamp: word_vec(&block_data.timestamp.to_be_bytes()),
            num_transactions: to_column(num_transactions),
            num_deposits: to_column(num_deposits),
            block_index_day: low_column(block_data.block_index.day),
            block_index_index: low_column(block_data.block_index.index),
            sequencer: address_vec(&block_data.sequencer),
            blobhashes: encode_words(block_data.blobhashes.as_slice()),
            l1_block_number: to_column(l1_block_number),
        },
    )
}

/// Whether a block and its number on the first layer are those that a row says, `block_nr`
/// being the number that the row was asked for by.
pub open spec fn says_block(
    row: BlockRowView,
    block_nr: u64,
    block: BlockView,
    l1_block_number: u64,
) -> bool {
    &&& block.anchor@ == row.anchor
    &&& block.timestamp@ == be_value(row.timestamp)
    &&& block.num_transactions@ == number_in(row.num_transactions)
    &&& block.num_deposits@ == number_in(row.num_deposits)
    &&& block.block_nr@ == block_nr
    &&& block.block_index.day == widened(row.block_index_day)
    &&& block.block_index.index == widened(row.block_index_index)
    &&& block.sequencer@ == row.sequencer
    &&& words_in(block.blobhashes, row.blobhashes)
    &&& l1_block_number == number_in(row.l1_block_number)
}

/// The block that a row says. Fails exactly where its timestamp is not kept in 32 bytes.
pub fn row_to_block(row: &BlockRow, block_nr: u64) -> (r: Result<(BlockData, u64), StateError>)
    requires
        row.anchor@.len() == 32,
        row.sequencer@.len() == 20,
    ensures
        r is Ok <==> row.timestamp@.len() == 32,
        r matches Ok(b) ==> says_block(row@, block_nr, b.0@, b.1),
        r matches Err(e) ==> e == StateError::InvalidTimestamp,
{
    if row.timestamp.len() != 32 {
        return Err(StateError::InvalidTimestamp);
    }
    let timestamp = read_word(row.timestamp.as_slice(), 0);
    let anchor = read_word(row.anchor.as_slice(), 0);
    proof {
        assert(row.timestamp@.subrange(0, 32) =~= row.timestamp@);
        assert(row.anchor@.subrange(0, 32) =~= row.anchor@);
    }
    let block = BlockData {
        anchor,
        timestamp: U256::from_be_bytes(&timestamp),
        num_transactions: U256::from_u64(from_column(row.num_transactions)),
        num_deposits: U256::from_u64(from_column(row.num_deposits)),
        block_nr: U256::from_u64(block_nr),
        block_index: TimestampAndIndex {
            day: widen(row.block_index_day),
            index: widen(row.block_index_index),
        },
        sequencer: read_address(&row.sequencer),
        blobhashes: decode_words(row.blobhashes.as_slice()),
    };
    Ok((block, from_column(row.l1_block_number)))
}

/// A block that was written is read back as it was, where its position is within the 63
/// bits that a column keeps of it.
pub proof fn law_block_round_trip(
    block: BlockView,
    l1_block_number: u64,
    read: BlockView,
    read_l1_block_number: u64,
)
    requires
        row_of(block, l1_block_number) is Ok,
        says_block(
            row_of(block, l1_block_number)->Ok_0,
            block.block_nr@ as u64,
            read,
            read_l1_block_number,
        ),
        block.block_index.day <= i64::MAX,
        block.block_index.index <= i64::MAX,
    ensures
        read == block,
        read_l1_block_number == l1_block_number,
        (row_of(block, l1_block_number)->Ok_0).anchor.len() == 32,
        (row_of(block, l1_block_number)->Ok_0).timestamp.len() == 32,
        (row_of(block, l1_block_number)->Ok_0).sequencer.len() == 20,
{
    let row = row_of(block, l1_block_number)->Ok_0;
    lemma_b256_ext(read.anchor, block.anchor);
    lemma_pow_256_32();
    lemma_u256_bounds(block.timestamp, read.timestamp);
    lemma_be_value_of_bytes(block.timestamp@, 32);
    lemma_u256_bounds(block.num_transactions, read.num_transactions);
    lemma_u256_bounds(block.num_deposits, read.num_deposits);
    lemma_u256_bounds(block.block_nr, read.block_nr);
    law_column_round_trip(block.num_transactions@ as u64);
    law_column_round_trip(block.num_deposits@ as u64);
    law_column_round_trip(l1_block_number);
    law_words_round_trip(block.blobhashes, read.blobhashes);
    assert(read.sequencer == block.sequencer) by {
        assert forall|i: int| 0 <= i < 20 implies read.sequencer.0[i] == block.sequencer.0[i] by {
            assert(read.sequencer@[i] == block.sequencer@[i]);
        }
        assert(read.sequencer.0 =~= block.sequencer.0);
    }
}

/// The columns of a nullifier's record: block, transaction, and which of its nullifiers.
pub open spec fn record_columns(record: NullifierRecord) -> (i64, i64, i32) {
    (column_of(record.block_nr) as i64, record.tx_index as i64, record.which as i32)
}

/// The columns of a nullifier's record.
pub fn record_to_row(record: &NullifierRecord) -> (r: (i64, i64, i32))
    ensures
        r == record_columns(*record),
{
    (to_column(record.block_nr), record.tx_index as i64, record.which as i32)
}

/// The nullifier's record in columns. What is beyond the width of a part is lost.
pub fn row_to_record(block_nr: i64, tx_index: i64, which: i32) -> (r: NullifierRecord)
    ensures
        r.block_nr == number_in(block_nr),
        r.tx_index == number_in(tx_index) % 0x1_0000_0000,
        r.which == number_in(which as i64) % 256,
{
    NullifierRecord {
        block_nr: from_column(block_nr),
        tx_index: low_u32(tx_index),
        which: (from_column(which as i64) % 256) as u8,
    }
}

/// A record that was written is read back as it was.
pub proof fn law_record_round_trip(record: NullifierRecord)
    ensures
        ({
            let (block_nr, tx_index, which) = record_columns(record);
            &&& number_in(block_nr) == record.block_nr
            &&& number_in(tx_index) % 0x1_0000_0000 == record.tx_index
            &&& number_in(which as i64) % 256 == record.which
        }),
{
    law_column_round_trip(record.block_nr);
}

/// The eight bytes that a block number is kept in.
pub fn encode_block_number(block: u64) -> (r: Vec<u8>)
    ensures
        r@ == be_bytes(block as nat, 8),
        r@.len() == 8,
{
    let word = U256::from_u64(block).to_be_bytes();
    let mut bytes: Vec<u8> = Vec::new();
    let mut k: usize = 0;
    while k < 8
        invariant
            k <= 8,
            bytes@ == word@.subrange(24, 24 + k),
        decreases 8 - k,
    {
        bytes.push(word.0[24 + k]);
        k += 1;
        assert(bytes@ =~= word@.subrange(24, 24 + k));
    }
    proof {
        lemma_low_bytes(block as nat, 24, 8);
        lemma_be_bytes_len(block as nat, 8);
        lemma_be_bytes_len(block as nat, 32);
        assert(be_bytes(block as nat, 32).skip(24) =~= word@.subrange(24, 32));
    }
    bytes
}

/// The last bytes of a number are its bytes when fewer are asked for.
proof fn lemma_low_bytes(value: nat, more: nat, len: nat)
    ensures
        be_bytes(value, more + len).len() == more + len,
        be_bytes(value, more + len).skip(more as int) == be_bytes(value, len),
    decreases len,
{
    lemma_be_bytes_len(value, more + len);
    lemma_be_bytes_len(value, len);
    if len > 0 {
        lemma_low_bytes(value / 256, more, (len - 1) as nat);
        let all = be_bytes(value, more + len);
        let front = be_bytes(value / 256, (more + len - 1) as nat);
        assert(all == front.push((value % 256) as u8));
        assert(all.skip(more as int) =~= front.skip(more as int).push((value % 256) as u8));
    } else {
        assert(be_bytes(value, more).skip(more as int) =~= Seq::empty());
    }
}

/// The block number that bytes hold. Fails exactly where there are not eight of them.
pub fn decode_block_number(bytes: &[u8]) -> (r: Result<u64, StateError>)
    ensures
        r is Ok <==> bytes@.len() == 8,
        r matches Ok(block) ==> block == be_value(bytes@),
        r matches Err(e) ==> e == (StateError::InvalidLastProcessedBlock {
            got: bytes@.len() as usize,
        }),
{
    if bytes.len() != 8 {
        return Err(StateError::InvalidLastProcessedBlock { got: bytes.len() });
    }
    let mut value: u64 = 0;
    let mut k: usize = 0;
    assert(bytes@.take(0) =~= Seq::empty());
    while k < 8
        invariant
            k <= 8,
            bytes@.len() == 8,
            value == be_value(bytes@.take(k as int)),
        decreases 8 - k,
    {
        proof {
            let next = bytes@.take(k + 1);
            assert(next.drop_last() =~= bytes@.take(k as int));
            assert(next.last() == bytes@[k as int]);
            lemma_short_value(bytes@.take(k as int));
        }
        value = value * 256 + bytes[k] as u64;
        k += 1;
    }
    assert(bytes@.take(8) =~= bytes@);
    Ok(value)
}

/// What fewer than eight bytes spell can be moved up by a byte.
proof fn lemma_short_value(bytes: Seq<u8>)
    requires
        bytes.len() < 8,
    ensures
        be_value(bytes) < 0x100_0000_0000_0000,
{
    lemma_be_value_bound(bytes);
    lemma_pow_256_8();
    if bytes.len() < 7 {
        lemma_pow_strictly_increases(256, bytes.len(), 7);
    }
}

/// A block number is recovered from its bytes.
pub proof fn law_block_number_round_trip(block: u64)
    ensures
        be_bytes(block as nat, 8).len() == 8,
        be_value(be_bytes(block as nat, 8)) == block,
{
    lemma_pow_256_8();
    lemma_be_value_of_bytes(block as nat, 8);
}

/// Whether bytes may be kept as a blob. Fails exactly where they have another size.
pub fn check_blob_size(blob_data: &[u8]) -> (r: Result<(), StateError>)
    ensures
        r is Ok <==> blob_data@.len() == STORED_BLOB_SIZE,
        r matches Err(e) ==> e == (StateError::InvalidBlobSize { got: blob_data@.len() as usize }),
{
    if blob_data.len() == STORED_BLOB_SIZE {
        Ok(())
    } else {
        Err(StateError::InvalidBlobSize { got: blob_data.len() })
    }
}

/// Number of bytes that so many blobs take.
pub fn blob_storage_size(blob_count: u64) -> (r: u64)
    requires
        blob_count * STORED_BLOB_SIZE <= u64::MAX,
    ensures
        r == blob_count * STORED_BLOB_SIZE,
{
    blob_count * 131072
}

/// A column has the 64 bits of its number: it differs from it by a multiple of two to the power of
/// 64, and small numbers are kept as they are.
pub proof fn law_column_has_the_same_bits(value: u64, column: i64)
    ensures
        value <= i64::MAX ==> column_of(value) == value,
        value > i64::MAX ==> column_of(value) + 0x1_0000_0000_0000_0000 == value,
        column >= 0 ==> number_in(column) == column,
        column < 0 ==> number_in(column) == column + 0x1_0000_0000_0000_0000,
        column_of(number_in(column) as u64) == column,
{
}

/// A row keeps each part of a block's header in the column of that part.
pub proof fn law_row_keeps_each_part(block: BlockView, l1_block_number: u64)
    ensures
        row_of(block, l1_block_number) is Ok <==> (block.block_nr@ <= u64::MAX
            && block.num_transactions@ <= u64::MAX && block.num_deposits@ <= u64::MAX),
        row_of(block, l1_block_number) matches Ok(row) ==> {
            &&& number_in(row.block_nr) == block.block_nr@
            &&& row.anchor == block.anchor@
            &&& be_value(row.timestamp) == block.timestamp@
            &&& number_in(row.num_transactions) == block.num_transactions@
            &&& number_in(row.num_deposits) == block.num_deposits@
            &&& block.block_index.day <= u64::MAX ==> number_in(row.block_index_day)
                == block.block_index.day
            &&& block.block_index.index <= u64::MAX ==> number_in(row.block_index_index)
                == block.block_index.index
            &&& row.sequencer == block.sequencer@
            &&& row.blobhashes.len() == 32 * block.blobhashes.len()
            &&& forall|i: int|
                0 <= i < block.blobhashes.len() ==> row.blobhashes.subrange(32 * i, 32 * i + 32) == (
                #[trigger] block.blobhashes[i])@
            &&& number_in(row.l1_block_number) == l1_block_number
        },
{
    if row_of(block, l1_block_number) is Ok {
        lemma_pow_256_32();
        lemma_u256_bounds(block.timestamp, block.timestamp);
        lemma_be_value_of_bytes(block.timestamp@, 32);
        lemma_words_bytes(block.blobhashes);
    }
}

/// A row is read part by part out of the columns of these parts; the number is the one that the
/// row was asked for by.
pub proof fn law_row_is_read_part_by_part(
    row: BlockRowView,
    block_nr: u64,
    block: BlockView,
    l1_block_number: u64,
)
    requires
        says_block(row, block_nr, block, l1_block_number),
    ensures
        block.block_nr@ == block_nr,
        block.anchor@ == row.anchor,
        block.timestamp@ == be_value(row.timestamp),
        row.num_transactions >= 0 ==> block.num_transactions@ == row.num_transactions,
        row.num_deposits >= 0 ==> block.num_deposits@ == row.num_deposits,
        row.block_index_day >= 0 ==> block.block_index.day == row.block_index_day,
        row.block_index_index >= 0 ==> block.block_index.index == row.block_index_index,
        block.sequencer@ == row.sequencer,
        block.blobhashes.len() == row.blobhashes.len() / 32,
        forall|i: int|
            0 <= i < block.blobhashes.len() ==> (#[trigger] block.blobhashes[i])@
                == row.blobhashes.subrange(32 * i, 32 * i + 32),
        row.l1_block_number >= 0 ==> l1_block_number == row.l1_block_number,
{
}

/// A record's columns are its block, its transaction and which of the two nullifiers it is.
pub proof fn law_record_keeps_each_part(record: NullifierRecord)
    ensures
        number_in(record_columns(record).0) == record.block_nr,
        record_columns(record).1 == record.tx_index,
        record_columns(record).2 == record.which,
{
}

/// What a row says is what it holds, column by column.
pub proof fn law_row_says_what_it_holds(row: BlockRow)
    ensures
        row@.block_nr == row.block_nr,
        row@.anchor == row.anchor@,
        row@.timestamp == row.timestamp@,
        row@.num_transactions == row.num_transactions,
        row@.num_deposits == row.num_deposits,
        row@.block_index_day == row.block_index_day,
        row@.block_index_index == row.block_index_index,
        row@.sequencer == row.sequencer@,
        row@.blobhashes == row.blobhashes@,
        row@.l1_block_number == row.l1_block_number,
{
}

} // verus!
