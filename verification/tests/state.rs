use pgp_challenger::state::{
    blob_storage_size, block_to_row, check_blob_size, decode_block_number, decode_words, encode_block_number,
    encode_words, from_column, low_u32, record_to_row, row_to_block, row_to_record, to_column, StateError,
};
use pgp_challenger::types::{Address, BlockData, TimestampAndIndex, B256, U256};
use pgp_challenger::validators::nullifier::NullifierRecord;

fn block_data() -> BlockData {
    BlockData {
        anchor: B256::repeat_byte(0x11),
        timestamp: U256 { l0: 1, l1: 2, l2: 3, l3: 4 },
        num_transactions: U256::from_u64(5),
        num_deposits: U256::from_u64(u64::MAX),
        block_nr: U256::from_u64(42),
        block_index: TimestampAndIndex { day: 20000, index: 17 },
        sequencer: Address::repeat_byte(0x22),
        blobhashes: vec![B256::repeat_byte(0x01), B256::repeat_byte(0x02)],
    }
}

#[test]
fn a_block_is_read_back_as_it_was() {
    let block = block_data();
    let row = block_to_row(&block, 12345).unwrap();
    assert_eq!(row.block_nr, 42);
    assert_eq!(row.num_deposits, -1);
    assert_eq!(row.blobhashes.len(), 64);
    let (read, l1_block_number) = row_to_block(&row, 42).unwrap();
    assert_eq!(l1_block_number, 12345);
    assert_eq!(read.anchor, block.anchor);
    assert_eq!(read.timestamp, block.timestamp);
    assert_eq!(read.num_transactions, block.num_transactions);
    assert_eq!(read.num_deposits, block.num_deposits);
    assert_eq!(read.block_nr, block.block_nr);
    assert_eq!(read.block_index, block.block_index);
    assert_eq!(read.sequencer, block.sequencer);
    assert_eq!(read.blobhashes, block.blobhashes);
}

#[test]
fn wide_numbers_are_not_written() {
    let wide = U256 { l0: 0, l1: 1, l2: 0, l3: 0 };
    let mut block = block_data();
    block.num_deposits = wide;
    assert_eq!(block_to_row(&block, 0).err(), Some(StateError::DepositCountTooLarge));
    block.num_transactions = wide;
    assert_eq!(block_to_row(&block, 0).err(), Some(StateError::TransactionCountTooLarge));
    block.block_nr = wide;
    let error = block_to_row(&block, 0).err().unwrap();
    assert_eq!(error, StateError::BlockNumberTooLarge);
    assert_eq!(error.message(), "Block number exceeds u64::MAX");
}

#[test]
fn a_short_timestamp_is_not_read() {
    let mut row = block_to_row(&block_data(), 0).unwrap();
    row.timestamp.pop();
    assert_eq!(row_to_block(&row, 42).err(), Some(StateError::InvalidTimestamp));
}

#[test]
fn columns_keep_all_bits() {
    assert_eq!(to_column(5), 5);
    assert_eq!(to_column(u64::MAX), -1);
    assert_eq!(to_column(1 << 63), i64::MIN);
    for value in [0, 1, i64::MAX as u64, 1 << 63, u64::MAX] {
        assert_eq!(from_column(to_column(value)), value);
    }
    assert_eq!(low_u32(-1), u32::MAX);
    assert_eq!(low_u32((1 << 32) + 7), 7);
}

#[test]
fn words_stand_one_after_another() {
    let words = [B256::repeat_byte(1), B256::repeat_byte(2)];
    let mut bytes = encode_words(&words);
    assert_eq!(bytes.len(), 64);
    assert_eq!(bytes[31], 1);
    assert_eq!(bytes[32], 2);
    assert_eq!(decode_words(&bytes), words.to_vec());
    bytes.push(9);
    assert_eq!(decode_words(&bytes), words.to_vec());
    assert!(decode_words(&[1, 2, 3]).is_empty());
}

#[test]
fn a_record_is_read_back_as_it_was() {
    let record = NullifierRecord { block_nr: u64::MAX - 1, tx_index: u32::MAX, which: 1 };
    let (block_nr, tx_index, which) = record_to_row(&record);
    assert_eq!((block_nr, tx_index, which), (-2, u32::MAX as i64, 1));
    assert_eq!(row_to_record(block_nr, tx_index, which), record);
}

#[test]
fn the_last_processed_block_is_kept_in_eight_bytes() {
    let bytes = encode_block_number(0x0102030405060708);
    assert_eq!(bytes, vec![1, 2, 3, 4, 5, 6, 7, 8]);
    assert_eq!(decode_block_number(&bytes), Ok(0x0102030405060708));
    assert_eq!(decode_block_number(&encode_block_number(u64::MAX)), Ok(u64::MAX));
    let error = decode_block_number(&bytes[1..]).err().unwrap();
    assert_eq!(error, StateError::InvalidLastProcessedBlock { got: 7 });
    assert_eq!(error.message(), "Invalid last_processed_block format");
}

#[test]
fn blobs_have_one_size() {
    assert_eq!(check_blob_size(&vec![0u8; 131072]), Ok(()));
    assert_eq!(check_blob_size(&[0u8; 100]), Err(StateError::InvalidBlobSize { got: 100 }));
    assert_eq!(blob_storage_size(0), 0);
    assert_eq!(blob_storage_size(5), 5 * 131072);
}
