use pgp_challenger::beacon::{
    collect_blobs, compute_versioned_hash, decode_blob_data, effective_cache_size, find_blob, pick_blobs,
    BeaconBlobProvider, BeaconError, BlobSidecar, DatabaseBlobProvider, ExecutionBlobProvider,
    BLOB_SIZE_BYTES,
};
use pgp_challenger::blob_cache::BlobCache;
use pgp_challenger::fallback::{BlobFetch, FetchStep};
use pgp_challenger::types::B256;
use sha2::{Digest, Sha256};

fn sidecar(commitment_byte: u8, blob_byte: u8) -> BlobSidecar {
    BlobSidecar {
        index: "0".to_string(),
        blob: format!("0x{}", format!("{blob_byte:02x}").repeat(BLOB_SIZE_BYTES)),
        kzg_commitment: format!("0x{}", format!("{commitment_byte:02x}").repeat(48)),
        kzg_proof: format!("0x{}", "00".repeat(48)),
    }
}

fn hash_of(commitment_byte: u8) -> B256 {
    let mut h: [u8; 32] = Sha256::digest([commitment_byte; 48]).into();
    h[0] = 1;
    B256(h)
}

#[test]
fn test_versioned_hash_computation() {
    let commitment = vec![0u8; 48];
    let hash = Sha256::digest(&commitment);
    let mut expected = [0u8; 32];
    expected[0] = 0x01;
    expected[1..].copy_from_slice(&hash[1..]);
    assert_eq!(expected[0], 0x01);
    assert_eq!(&expected[1..], &hash[1..]);
    assert_eq!(compute_versioned_hash(&"00".repeat(48)).unwrap(), B256(expected));
}

#[test]
fn test_blob_sidecar_versioned_hash() {
    let sidecar = BlobSidecar {
        index: "0".to_string(),
        blob: format!("0x{}", "00".repeat(BLOB_SIZE_BYTES)),
        kzg_commitment: format!("0x{}", "00".repeat(48)),
        kzg_proof: format!("0x{}", "00".repeat(48)),
    };
    let hash = sidecar.versioned_hash().unwrap();
    assert_eq!(hash.0[0], 0x01);
}

#[test]
fn test_blob_size_validation() {
    let sidecar = BlobSidecar {
        index: "0".to_string(),
        blob: "0x1234".to_string(),
        kzg_commitment: format!("0x{}", "00".repeat(48)),
        kzg_proof: format!("0x{}", "00".repeat(48)),
    };
    let result = sidecar.blob_bytes();
    assert!(result.is_err());
    assert!(result.unwrap_err().message().contains("Invalid blob size"));
}

#[test]
fn test_blob_sidecar_blob_bytes() {
    let sidecar = BlobSidecar {
        index: "0".to_string(),
        blob: format!("0x{}", "00".repeat(BLOB_SIZE_BYTES)),
        kzg_commitment: format!("0x{}", "00".repeat(48)),
        kzg_proof: format!("0x{}", "00".repeat(48)),
    };
    let bytes = sidecar.blob_bytes().unwrap();
    assert_eq!(bytes.len(), BLOB_SIZE_BYTES);
}

#[test]
fn hex_is_read_with_and_without_prefix() {
    let plain = "aB".repeat(BLOB_SIZE_BYTES);
    assert_eq!(decode_blob_data(&plain).unwrap()[0], 0xab);
    assert_eq!(decode_blob_data(&format!("0x{plain}")).unwrap()[BLOB_SIZE_BYTES - 1], 0xab);
    assert_eq!(decode_blob_data(&format!("0x0x{plain}")).unwrap().len(), BLOB_SIZE_BYTES);
    assert_eq!(decode_blob_data("0xzz").err(), Some(BeaconError::InvalidBlobHex));
    assert_eq!(decode_blob_data("abc").err(), Some(BeaconError::InvalidBlobHex));
    assert_eq!(decode_blob_data("").err(), Some(BeaconError::InvalidBlobSize { got: 0 }));
    assert_eq!(compute_versioned_hash("0xg0").err(), Some(BeaconError::InvalidCommitmentHex));
}

#[test]
fn blob_is_found_by_its_hash() {
    let sidecars = vec![sidecar(1, 0x10), sidecar(2, 0x20), sidecar(2, 0x30)];
    assert_eq!(find_blob(&sidecars, hash_of(2)).unwrap()[0], 0x20);
    assert_eq!(find_blob(&sidecars, hash_of(3)).err(), Some(BeaconError::NotFound));
    let mut broken = vec![sidecar(1, 0x10)];
    broken[0].kzg_commitment = "?".to_string();
    assert_eq!(find_blob(&broken, hash_of(1)).err(), Some(BeaconError::InvalidCommitmentHex));
}

#[test]
fn blobs_come_in_the_order_asked_for() {
    let sidecars = vec![sidecar(1, 0x10), sidecar(2, 0x20), sidecar(2, 0x30)];
    let blobs = collect_blobs(&sidecars, &[hash_of(2), hash_of(1), hash_of(2)]).unwrap();
    assert_eq!(blobs.len(), 3);
    assert_eq!(blobs[0][0], 0x30);
    assert_eq!(blobs[1][0], 0x10);
    assert_eq!(blobs[2][0], 0x30);
    assert_eq!(collect_blobs(&sidecars, &[hash_of(9)]).err(), Some(BeaconError::NotFound));
    let mut broken = vec![sidecar(1, 0x10)];
    broken[0].blob = "0x12".to_string();
    assert!(collect_blobs(&broken, &[]).unwrap().is_empty());
    assert_eq!(collect_blobs(&broken, &[hash_of(1)]).err(), Some(BeaconError::InvalidBlobSize { got: 1 }));
}

#[test]
fn one_blob_comes_for_each_hash() {
    let a = B256::repeat_byte(1);
    let b = B256::repeat_byte(2);
    let rows = vec![(a, vec![1u8]), (b, vec![2u8])];
    assert_eq!(pick_blobs(&rows, &[b, a]).unwrap(), vec![vec![2u8], vec![1u8]]);
    assert_eq!(pick_blobs(&rows, &[a, a]).unwrap(), vec![vec![1u8], vec![1u8]]);
    assert_eq!(pick_blobs(&rows, &[a, B256::zero()]).err(), Some(BeaconError::NotFound));
}

#[test]
fn providers_keep_what_they_are_given() {
    let beacon = BeaconBlobProvider::new("http://localhost:5052//");
    assert_eq!(beacon.beacon_url, "http://localhost:5052");
    assert_eq!(beacon.sidecars_url(1203), "http://localhost:5052/eth/v1/beacon/blob_sidecars/1203");
    assert_eq!(beacon.health_url(), "http://localhost:5052/eth/v1/node/health");
    assert_eq!(DatabaseBlobProvider::new("a.db").db_path, "a.db");
    assert_eq!(DatabaseBlobProvider::from_path("/tmp/b.db").db_path, "/tmp/b.db");
    assert_eq!(ExecutionBlobProvider::new(7u8).provider, 7);
    assert_eq!(effective_cache_size(0), 1);
    assert_eq!(effective_cache_size(5), 5);
}

#[test]
fn cache_forgets_what_was_entered_longest_ago() {
    let h = B256::repeat_byte;
    let mut cache = BlobCache::new(2);
    assert!(cache.get(1, h(1)).is_none());
    cache.put(1, h(1), vec![1]);
    cache.put(1, h(2), vec![2]);
    assert_eq!(cache.get(1, h(1)), Some(vec![1]));
    assert!(cache.get(2, h(1)).is_none());
    cache.put(1, h(3), vec![3]);
    assert!(cache.get(1, h(1)).is_none());
    assert_eq!(cache.get(1, h(2)), Some(vec![2]));
    cache.put(1, h(2), vec![22]);
    cache.put(1, h(4), vec![4]);
    assert!(cache.get(1, h(3)).is_none());
    assert_eq!(cache.get(1, h(2)), Some(vec![22]));
    assert_eq!(cache.get(1, h(4)), Some(vec![4]));
}

#[test]
fn cache_has_room_for_one_blob_at_least() {
    let mut cache = BlobCache::new(0);
    cache.put(1, B256::zero(), vec![9]);
    assert_eq!(cache.get(1, B256::zero()), Some(vec![9]));
}

/// Asks two places for blobs, each given by what it has under an index. Returns what came of
/// it, and the indices of the blobs that the first place is given.
fn ask(primary: &[Option<u8>], fallback: &[Option<u8>]) -> (Option<Vec<Vec<u8>>>, Vec<usize>) {
    let mut fetch = BlobFetch::new(primary.len());
    let mut saved = vec![];
    loop {
        match fetch.next_step() {
            FetchStep::AskPrimaryForAll => {
                let all: Option<Vec<Vec<u8>>> = primary.iter().map(|b| b.map(|n| vec![n])).collect();
                fetch.take_all(all);
            }
            FetchStep::AskPrimary { index } => {
                assert!(!fetch.take_blob(primary[index].map(|n| vec![n])));
            }
            FetchStep::AskFallback { index } => {
                if fetch.take_blob(fallback[index].map(|n| vec![n])) {
                    saved.push(index);
                }
            }
            FetchStep::Finish | FetchStep::Fail => return (fetch.finish(), saved),
        }
    }
}

#[test]
fn blobs_come_from_the_first_place_that_has_them() {
    assert_eq!(ask(&[Some(1), Some(2)], &[None, None]), (Some(vec![vec![1], vec![2]]), vec![]));
    assert_eq!(
        ask(&[Some(1), None, Some(3)], &[Some(7), Some(8), Some(9)]),
        (Some(vec![vec![1], vec![8], vec![3]]), vec![1])
    );
    assert_eq!(ask(&[], &[]), (Some(vec![]), vec![]));
}

#[test]
fn a_blob_in_neither_place_ends_the_asking() {
    assert_eq!(ask(&[None, None, Some(3)], &[Some(7), None, None]), (None, vec![0]));
}

#[test]
fn a_single_blob_is_asked_for_by_itself() {
    let mut fetch = BlobFetch::single();
    assert_eq!(fetch.next_step(), FetchStep::AskPrimary { index: 0 });
    assert!(!fetch.take_blob(None));
    assert_eq!(fetch.next_step(), FetchStep::AskFallback { index: 0 });
    assert!(fetch.take_blob(Some(vec![5])));
    assert_eq!(fetch.finish(), Some(vec![vec![5]]));
}
