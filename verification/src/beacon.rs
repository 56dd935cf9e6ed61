//! Blobs as a beacon node hands them out, and the cache that they are kept in.

use crate::text::{decimal, u256_to_text};
use crate::types::{lemma_b256_ext, B256, U256};
use sha2::Digest;
use vstd::prelude::*;

verus! {

/// Number of bytes per blob.
pub const BLOB_SIZE_BYTES: usize = 131072;

/// Why a blob was not read.
#[derive(Clone, Copy, Debug, PartialEq, Eq, Structural)]
pub enum BeaconError {
    /// A commitment is no hexadecimal text.
    InvalidCommitmentHex,
    /// A blob is no hexadecimal text.
    InvalidBlobHex,
    /// A blob has another size than 131072 bytes.
    InvalidBlobSize { got: usize },
    /// No blob has the hash that was asked for.
    NotFound,
}

impl BeaconError {
    /// What an error says.
    pub open spec fn text(self) -> &'static str {
        match self {
            BeaconError::InvalidCommitmentHex => "Invalid KZG commitment hex",
            BeaconError::InvalidBlobHex => "Invalid blob hex",
            BeaconError::InvalidBlobSize { .. } => "Invalid blob size",
            BeaconError::NotFound => "Blob not found",
        }
    }

    /// What the error says.
    pub fn message(&self) -> (r: &'static str)
        ensures
            r@ == self.text()@,
    {
        match self {
            BeaconError::InvalidCommitmentHex => "Invalid KZG commitment hex",
            BeaconError::InvalidBlobHex => "Invalid blob hex",
            BeaconError::InvalidBlobSize { .. } => "Invalid blob size",
            BeaconError::NotFound => "Blob not found",
        }
    }
}

/// The value of a hexadecimal digit.
pub open spec fn hex_digit(c: char) -> Option<u8> {
    if '0' <= c && c <= '9' {
        Some((c as u32 - '0' as u32) as u8)
    } else if 'a' <= c && c <= 'f' {
        Some((c as u32 - 'a' as u32 + 10) as u8)
    } else if 'A' <= c && c <= 'F' {
        Some((c as u32 - 'A' as u32 + 10) as u8)
    } else {
        None
    }
}

/// The bytes that hexadecimal digits spell, two to a byte.
pub open spec fn hex_bytes(digits: Seq<char>) -> Option<Seq<u8>>
    decreases digits.len(),
{
    if digits.len() == 0 {
        Some(Seq::empty())
    } else if digits.len() == 1 {
        None
    } else {
        let n = digits.len() as int;
        match (hex_bytes(digits.take(n - 2)), hex_digit(digits[n - 2]), hex_digit(digits[n - 1])) {
            (Some(front), Some(high), Some(low)) => Some(front.push((high * 16 + low) as u8)),
            _ => None,
        }
    }
}

/// Text without the `0x` in front of it, however often it stands there.
pub open spec fn without_0x(text: Seq<char>) -> Seq<char>
    decreases text.len(),
{
    if text.len() >= 2 && text[0] == '0' && text[1] == 'x' {
        without_0x(text.skip(2))
    } else {
        text
    }
}

/// Text without the slashes at its end.
pub open spec fn without_slashes(text: Seq<char>) -> Seq<char>
    decreases text.len(),
{
    if text.len() > 0 && text.last() == '/' {
        without_slashes(text.drop_last())
    } else {
        text
    }
}

/// The SHA-256 digest of bytes.
pub uninterp spec fn sha256(bytes: Seq<u8>) -> Seq<u8>;

/// `hex::decode`: the bytes that hexadecimal digits spell, where they spell any.
#[verifier::external_body]
fn decode_hex(text: &str) -> (r: Option<Vec<u8>>)
    ensures
        r is Some <==> hex_bytes(text@) is Some,
        r matches Some(b) ==> hex_bytes(text@) == Some(b@),
{
    hex::decode(text).ok()
}

/// `str::trim_start_matches` with `"0x"`: the text without that prefix, which is taken off
/// repeatedly.
#[verifier::external_body]
fn trim_0x<'a>(text: &'a str) -> (r: &'a str)
    ensures
        r@ == without_0x(text@),
{
    text.trim_start_matches("0x")
}

/// `str::trim_end_matches` with `'/'`: the text without that suffix, which is taken off
/// repeatedly.
#[verifier::external_body]
fn trim_slashes<'a>(text: &'a str) -> (r: &'a str)
    ensures
        r@ == without_slashes(text@),
{
    text.trim_end_matches('/')
}

/// `sha2::Sha256::digest`: the SHA-256 digest of bytes.
#[verifier::external_body]
fn sha256_digest(bytes: &[u8]) -> (r: [u8; 32])
    ensures
        r@ == sha256(bytes@),
{
    sha2::Sha256::digest(bytes).into()
}

/// The versioned hash of a commitment given in hexadecimal: the digest of the commitment,
/// its first byte being replaced by the version.
pub open spec fn versioned_hash_of(commitment: Seq<char>) -> Option<Seq<u8>> {
    match hex_bytes(without_0x(commitment)) {
        Some(bytes) => Some(seq![1u8] + sha256(bytes).skip(1)),
        None => None,
    }
}

/// The versioned hash of a commitment given in hexadecimal.
pub fn compute_versioned_hash(commitment_hex: &str) -> (r: Result<B256, BeaconError>)
    ensures
        r is Ok <==> versioned_hash_of(commitment_hex@) is Some,
        r matches Ok(h) ==> versioned_hash_of(commitment_hex@) == Some(h@),
        r matches Err(e) ==> e == BeaconError::InvalidCommitmentHex,
{
    match decode_hex(trim_0x(commitment_hex)) {
        Some(bytes) => {
            let mut versioned = sha256_digest(bytes.as_slice());
            let ghost digest = versioned@;
            versioned[0] = 1;
            assert(versioned@ =~= seq![1u8] + digest.skip(1));
            Ok(B256(versioned))
        },
        None => Err(BeaconError::InvalidCommitmentHex),
    }
}

/// The bytes of a blob given in hexadecimal, or why there are none.
pub open spec fn blob_of(text: Seq<char>) -> Result<Seq<u8>, BeaconError> {
    match hex_bytes(without_0x(text)) {
        None => Err(BeaconError::InvalidBlobHex),
        Some(bytes) => if bytes.len() == BLOB_SIZE_BYTES {
            Ok(bytes)
        } else {
            Err(BeaconError::InvalidBlobSize { got: bytes.len() as usize })
        },
    }
}

/// The bytes of a blob given in hexadecimal.
pub fn decode_blob_data(blob_hex: &str) -> (r: Result<Vec<u8>, BeaconError>)
    ensures
        r matches Ok(b) ==> blob_of(blob_hex@) == Ok::<_, BeaconError>(b@),
        r matches Err(e) ==> blob_of(blob_hex@) == Err::<Seq<u8>, _>(e),
{
    match decode_hex(trim_0x(blob_hex)) {
        Some(bytes) => if bytes.len() == BLOB_SIZE_BYTES {
            Ok(bytes)
        } else {
            Err(BeaconError::InvalidBlobSize { got: bytes.len() })
        },
        None => Err(BeaconError::InvalidBlobHex),
    }
}

/// A blob as a beacon node hands it out.
#[derive(Clone, Debug)]
pub struct BlobSidecar {
    /// Index of the blob in its block.
    pub index: String,
    pub blob: String,
    pub kzg_commitment: String,
    pub kzg_proof: String,
}

/// The blobs of a block as a beacon node hands them out.
#[derive(Clone, Debug)]
pub struct BlobSidecarsResponse {
    pub data: Vec<BlobSidecar>,
}

impl BlobSidecar {
    /// The versioned hash of the blob.
    pub fn versioned_hash(&self) -> (r: Result<B256, BeaconError>)
        ensures
            r is Ok <==> versioned_hash_of(self.kzg_commitment@) is Some,
            r matches Ok(h) ==> versioned_hash_of(self.kzg_commitment@) == Some(h@),
            r matches Err(e) ==> e == BeaconError::InvalidCommitmentHex,
    {
        compute_versioned_hash(self.kzg_commitment.as_str())
    }

    /// The bytes of the blob.
    pub fn blob_bytes(&self) -> (r: Result<Vec<u8>, BeaconError>)
        ensures
            r matches Ok(b) ==> blob_of(self.blob@) == Ok::<_, BeaconError>(b@),
            r matches Err(e) ==> blob_of(self.blob@) == Err::<Seq<u8>, _>(e),
    {
        decode_blob_data(self.blob.as_str())
    }
}

/// The blob with a given hash among the sidecars from `from` on: that of the first that
/// has the hash, provided that every commitment up to it can be read.
pub open spec fn blob_with_hash(sidecars: Seq<BlobSidecar>, hash: Seq<u8>, from: int) -> Result<
    Seq<u8>,
    BeaconError,
>
    decreases sidecars.len() - from,
{
    if from < 0 || from >= sidecars.len() {
        Err(BeaconError::NotFound)
    } else {
        match versioned_hash_of(sidecars[from].kzg_commitment@) {
            None => Err(BeaconError::InvalidCommitmentHex),
            Some(h) => if h == hash {
                blob_of(sidecars[from].blob@)
            } else {
                blob_with_hash(sidecars, hash, from + 1)
            },
        }
    }
}

/// The blob with a given hash.
pub fn find_blob(sidecars: &[BlobSidecar], versioned_hash: B256) -> (r: Result<
    Vec<u8>,
    BeaconError,
>)
    ensures
        r matches Ok(b) ==> blob_with_hash(sidecars@, versioned_hash@, 0) == Ok::<_, BeaconError>(
            b@,
        ),
        r matches Err(e) ==> blob_with_hash(sidecars@, versioned_hash@, 0) == Err::<Seq<u8>, _>(e),
{
    let mut i: usize = 0;
    while i < sidecars.len()
        invariant
            i <= sidecars@.len(),
            blob_with_hash(sidecars@, versioned_hash@, 0) == blob_with_hash(
                sidecars@,
                versioned_hash@,
                i as int,
            ),
        decreases sidecars@.len() - i,
    {
        match sidecars[i].versioned_hash() {
            Ok(hash) => {
                proof {
                    lemma_b256_ext(hash, versioned_hash);
                }
                if hash == versioned_hash {
                    return sidecars[i].blob_bytes();
                }
            },
            Err(e) => {
                return Err(e);
            },
        }
        i += 1;
    }
    Err(BeaconError::NotFound)
}

/// The hashes and bytes of the first `count` sidecars, or the first error among them.
pub open spec fn read_sidecars(sidecars: Seq<BlobSidecar>, count: nat) -> Result<
    Seq<(Seq<u8>, Seq<u8>)>,
    BeaconError,
>
    decreases count,
{
    if count == 0 {
        Ok(Seq::empty())
    } else {
        match read_sidecars(sidecars, (count - 1) as nat) {
            Err(e) => Err(e),
            Ok(list) => match versioned_hash_of(sidecars[count - 1].kzg_commitment@) {
                None => Err(BeaconError::InvalidCommitmentHex),
                Some(hash) => match blob_of(sidecars[count - 1].blob@) {
                    Err(e) => Err(e),
                    Ok(blob) => Ok(list.push((hash, blob))),
                },
            },
        }
    }
}

/// The last blob of a list that has a given hash.
pub open spec fn last_with_hash(list: Seq<(Seq<u8>, Seq<u8>)>, hash: Seq<u8>) -> Option<Seq<u8>>
    decreases list.len(),
{
    if list.len() == 0 {
        None
    } else if list.last().0 == hash {
        Some(list.last().1)
    } else {
        last_with_hash(list.drop_last(), hash)
    }
}

/// What a list of hashes and blobs says.
pub open spec fn entries_of(list: Seq<(B256, Vec<u8>)>) -> Seq<(Seq<u8>, Seq<u8>)> {
    Seq::new(list.len(), |i: int| (list[i].0@, list[i].1@))
}

/// The blobs with the first `count` of the given hashes, in their order.
pub open spec fn blobs_in_order(
    list: Seq<(Seq<u8>, Seq<u8>)>,
    hashes: Seq<B256>,
    count: nat,
) -> Result<Seq<Seq<u8>>, BeaconError>
    decreases count,
{
    if count == 0 {
        Ok(Seq::empty())
    } else {
        match blobs_in_order(list, hashes, (count - 1) as nat) {
            Err(e) => Err(e),
            Ok(blobs) => match last_with_hash(list, hashes[count - 1]@) {
                Some(blob) => Ok(blobs.push(blob)),
                None => Err(BeaconError::NotFound),
            },
        }
    }
}

/// What a list of blobs says.
pub open spec fn blob_views(blobs: Seq<Vec<u8>>) -> Seq<Seq<u8>> {
    Seq::new(blobs.len(), |i: int| blobs[i]@)
}

/// An error for the first hashes is the error for all of them.
proof fn lemma_blobs_in_order_err(
    list: Seq<(Seq<u8>, Seq<u8>)>,
    hashes: Seq<B256>,
    front: nat,
    e: BeaconError,
)
    requires
        front <= hashes.len(),
        blobs_in_order(list, hashes, front) == Err::<Seq<Seq<u8>>, _>(e),
    ensures
        blobs_in_order(list, hashes, hashes.len()) == Err::<Seq<Seq<u8>>, _>(e),
    decreases hashes.len() - front,
{
    if front < hashes.len() {
        lemma_blobs_in_order_err(list, hashes, front + 1, e);
    }
}

/// An error among the first sidecars is the error of all of them.
proof fn lemma_read_sidecars_err(sidecars: Seq<BlobSidecar>, front: nat, e: BeaconError)
    requires
        front <= sidecars.len(),
        read_sidecars(sidecars, front) == Err::<Seq<(Seq<u8>, Seq<u8>)>, _>(e),
    ensures
        read_sidecars(sidecars, sidecars.len()) == Err::<Seq<(Seq<u8>, Seq<u8>)>, _>(e),
    decreases sidecars.len() - front,
{
    if front < sidecars.len() {
        lemma_read_sidecars_err(sidecars, front + 1, e);
    }
}

/// The last blob of a list that has a given hash.
fn find_last(list: &Vec<(B256, Vec<u8>)>, hash: &B256) -> (r: Option<Vec<u8>>)
    ensures
        r is Some <==> last_with_hash(entries_of(list@), hash@) is Some,
        r matches Some(b) ==> last_with_hash(entries_of(list@), hash@) == Some(b@),
{
    let ghost entries = entries_of(list@);
    let mut i: usize = list.len();
    assert(entries.take(i as int) =~= entries);
    while i > 0
        invariant
            i <= list@.len(),
            entries == entries_of(list@),
            last_with_hash(entries, hash@) == last_with_hash(entries.take(i as int), hash@),
        decreases i,
    {
        i -= 1;
        proof {
            assert(entries.take(i + 1).drop_last() =~= entries.take(i as int));
            assert(entries.take(i + 1).last() == entries[i as int]);
            lemma_b256_ext(list@[i as int].0, *hash);
        }
        if list[i].0 == *hash {
            let blob = list[i].1.clone();
            assert(blob@ =~= list@[i as int].1@);
            return Some(blob);
        }
    }
    None
}

/// One blob for each of the first `count` hashes, in their order, where there is one for each.
proof fn lemma_blobs_in_order(list: Seq<(Seq<u8>, Seq<u8>)>, hashes: Seq<B256>, count: nat)
    requires
        count <= hashes.len(),
    ensures
        blobs_in_order(list, hashes, count) is Ok <==> forall|i: int|
            0 <= i < count ==> last_with_hash(list, (#[trigger] hashes[i])@) is Some,
        blobs_in_order(list, hashes, count) matches Ok(blobs) ==> blobs.len() == count && forall|
            i: int,
        |
            0 <= i < count ==> last_with_hash(list, (#[trigger] hashes[i])@) == Some(blobs[i]),
        blobs_in_order(list, hashes, count) matches Err(e) ==> e == BeaconError::NotFound,
    decreases count,
{
    if count > 0 {
        lemma_blobs_in_order(list, hashes, (count - 1) as nat);
        assert(hashes[count - 1] == hashes[count - 1]);
    }
}

/// The blobs with the given hashes, out of a list of hashes and blobs: one for each hash, in
/// the order of the hashes. Fails exactly where there is none for some hash.
pub fn pick_blobs(list: &Vec<(B256, Vec<u8>)>, versioned_hashes: &[B256]) -> (r: Result<
    Vec<Vec<u8>>,
    BeaconError,
>)
    ensures
        r is Ok <==> forall|i: int|
            0 <= i < versioned_hashes@.len() ==> last_with_hash(
                entries_of(list@),
                (#[trigger] versioned_hashes@[i])@,
            ) is Some,
        r matches Ok(b) ==> b@.len() == versioned_hashes@.len() && forall|i: int|
            0 <= i < versioned_hashes@.len() ==> last_with_hash(
                entries_of(list@),
                (#[trigger] versioned_hashes@[i])@,
            ) == Some(b@[i]@),
        r matches Ok(b) ==> blobs_in_order(
            entries_of(list@),
            versioned_hashes@,
            versioned_hashes@.len(),
        ) == Ok::<_, BeaconError>(blob_views(b@)),
        r matches Err(e) ==> e == BeaconError::NotFound && blobs_in_order(
            entries_of(list@),
            versioned_hashes@,
            versioned_hashes@.len(),
        ) == Err::<Seq<Seq<u8>>, _>(e),
{
    let mut blobs: Vec<Vec<u8>> = Vec::new();
    let mut i: usize = 0;
    proof {
        lemma_blobs_in_order(entries_of(list@), versioned_hashes@, versioned_hashes@.len());
    }
    assert(blob_views(blobs@) =~= Seq::empty());
    while i < versioned_hashes.len()
        invariant
            i <= versioned_hashes@.len(),
            blobs_in_order(entries_of(list@), versioned_hashes@, i as nat) == Ok::<_, BeaconError>(
                blob_views(blobs@),
            ),
        decreases versioned_hashes@.len() - i,
    {
        match find_last(list, &versioned_hashes[i]) {
            Some(blob) => {
                let ghost before = blobs@;
                let ghost bytes = blob@;
                blobs.push(blob);
                assert(blob_views(blobs@) =~= blob_views(before).push(bytes));
            },
            None => {
                proof {
                    lemma_blobs_in_order_err(
                        entries_of(list@),
                        versioned_hashes@,
                        (i + 1) as nat,
                        BeaconError::NotFound,
                    );
                }
                return Err(BeaconError::NotFound);
            },
        }
        i += 1;
    }
    Ok(blobs)
}

/// The blobs of a block with the given hashes, in their order. Nothing is read where no
/// hash is given.
pub open spec fn collected_blobs(sidecars: Seq<BlobSidecar>, hashes: Seq<B256>) -> Result<
    Seq<Seq<u8>>,
    BeaconError,
> {
    if hashes.len() == 0 {
        Ok(Seq::empty())
    } else {
        match read_sidecars(sidecars, sidecars.len()) {
            Err(e) => Err(e),
            Ok(list) => blobs_in_order(list, hashes, hashes.len()),
        }
    }
}

/// The blobs of a block with the given hashes, in their order.
pub fn collect_blobs(sidecars: &[BlobSidecar], versioned_hashes: &[B256]) -> (r: Result<
    Vec<Vec<u8>>,
    BeaconError,
>)
    ensures
        r matches Ok(b) ==> collected_blobs(sidecars@, versioned_hashes@) == Ok::<_, BeaconError>(
            blob_views(b@),
        ),
        r matches Err(e) ==> collected_blobs(sidecars@, versioned_hashes@) == Err::<
            Seq<Seq<u8>>,
            _,
        >(e),
{
    if versioned_hashes.len() == 0 {
        let none: Vec<Vec<u8>> = Vec::new();
        assert(blob_views(none@) =~= Seq::empty());
        return Ok(none);
    }
    let mut list: Vec<(B256, Vec<u8>)> = Vec::new();
    let mut i: usize = 0;
    assert(entries_of(list@) =~= Seq::empty());
    while i < sidecars.len()
        invariant
            i <= sidecars@.len(),
            versioned_hashes@.len() > 0,
            read_sidecars(sidecars@, i as nat) == Ok::<_, BeaconError>(entries_of(list@)),
        decreases sidecars@.len() - i,
    {
        let hash = match sidecars[i].versioned_hash() {
            Ok(hash) => hash,
            Err(e) => {
                proof {
                    lemma_read_sidecars_err(sidecars@, (i + 1) as nat, e);
                }
                return Err(e);
            },
        };
        match sidecars[i].blob_bytes() {
            Ok(blob) => {
                let ghost before = list@;
                let ghost bytes = blob@;
                list.push((hash, blob));
                assert(entries_of(list@) =~= entries_of(before).push((hash@, bytes)));
            },
            Err(e) => {
                proof {
                    lemma_read_sidecars_err(sidecars@, (i + 1) as nat, e);
                }
                return Err(e);
            },
        }
        i += 1;
    }
    pick_blobs(&list, versioned_hashes)
}

/// A beacon node that blobs are asked of.
#[derive(Debug)]
pub struct BeaconBlobProvider {
    /// Base of the node's addresses, without slashes at its end.
    pub beacon_url: String,
}

impl BeaconBlobProvider {
    /// A beacon node at an address.
    pub fn new(beacon_url: &str) -> (r: BeaconBlobProvider)
        ensures
            r.beacon_url@ == without_slashes(beacon_url@),
    {
        BeaconBlobProvider { beacon_url: trim_slashes(beacon_url).to_owned() }
    }

    /// Where the blobs of a block are.
    pub fn sidecars_url(&self, l1_block_number: u64) -> (r: String)
        ensures
            r@ == self.beacon_url@ + "/eth/v1/beacon/blob_sidecars/"@ + decimal(
                l1_block_number as nat,
            ),
    {
        let block = u256_to_text(&U256::from_u64(l1_block_number));
        self.beacon_url.as_str().to_owned().concat("/eth/v1/beacon/blob_sidecars/").concat(
            block.as_str(),
        )
    }

    /// Where the node tells how it is.
    pub fn health_url(&self) -> (r: String)
        ensures
            r@ == self.beacon_url@ + "/eth/v1/node/health"@,
    {
        self.beacon_url.as_str().to_owned().concat("/eth/v1/node/health")
    }
}

/// An execution node that blobs are asked of.
pub struct ExecutionBlobProvider<P> {
    pub provider: P,
}

impl<P> ExecutionBlobProvider<P> {
    /// The node that a provider reaches.
    pub fn new(provider: P) -> (r: ExecutionBlobProvider<P>)
        ensures
            r.provider == provider,
    {
        ExecutionBlobProvider { provider }
    }
}

/// A database that blobs are kept in.
#[derive(Debug)]
pub struct DatabaseBlobProvider {
    pub db_path: String,
}

impl DatabaseBlobProvider {
    /// The database in a file.
    pub fn new(db_path: &str) -> (r: DatabaseBlobProvider)
        ensures
            r.db_path@ == db_path@,
    {
        DatabaseBlobProvider { db_path: db_path.to_owned() }
    }

    /// The database in a file of which the path is given as text.
    pub fn from_path(db_path: &str) -> (r: DatabaseBlobProvider)
        ensures
            r.db_path@ == db_path@,
    {
        Self::new(db_path)
    }
}

/// How many blobs a cache holds that was asked to hold `cache_size`: one at least.
pub fn effective_cache_size(cache_size: usize) -> (r: usize)
    ensures
        r == (if cache_size == 0 {
            1
        } else {
            cache_size
        }),
{
    if cache_size == 0 {
        1
    } else {
        cache_size
    }
}

/// A blob is taken from a response only under the hash that its commitment has, and it has the
/// size of a blob: the blobs that are collected come in the order of the hashes, each from the
/// last sidecar with its hash.
pub proof fn law_collected_blobs_have_their_hashes(
    sidecars: Seq<BlobSidecar>,
    hashes: Seq<B256>,
    i: int,
) -> (s: int)
    requires
        collected_blobs(sidecars, hashes) is Ok,
        0 <= i < hashes.len(),
    ensures
        (collected_blobs(sidecars, hashes)->Ok_0).len() == hashes.len(),
        0 <= s < sidecars.len(),
        versioned_hash_of(sidecars[s].kzg_commitment@) == Some(hashes[i]@),
        blob_of(sidecars[s].blob@) == Ok::<_, BeaconError>((collected_blobs(sidecars, hashes)->Ok_0)[i]),
        (collected_blobs(sidecars, hashes)->Ok_0)[i].len() == 131072,
        forall|k: int|
            s < k < sidecars.len() ==> versioned_hash_of((#[trigger] sidecars[k]).kzg_commitment@)
                != Some(hashes[i]@),
{
    let list = read_sidecars(sidecars, sidecars.len())->Ok_0;
    lemma_read_sidecars(sidecars, sidecars.len());
    lemma_blobs_in_order(list, hashes, hashes.len());
    let blobs = collected_blobs(sidecars, hashes)->Ok_0;
    assert(last_with_hash(list, hashes[i]@) == Some(blobs[i]));
    let s = lemma_last_with_hash(list, hashes[i]@);
    assert(versioned_hash_of(sidecars[s].kzg_commitment@) == Some(list[s].0));
    assert forall|k: int| s < k < sidecars.len() implies versioned_hash_of(
        (#[trigger] sidecars[k]).kzg_commitment@,
    ) != Some(hashes[i]@) by {
        assert(list[k].0 != hashes[i]@);
    }
    s
}

/// What is read of sidecars is the hash and the blob of each, in their order.
proof fn lemma_read_sidecars(sidecars: Seq<BlobSidecar>, count: nat)
    requires
        count <= sidecars.len(),
        read_sidecars(sidecars, count) is Ok,
    ensures
        (read_sidecars(sidecars, count)->Ok_0).len() == count,
        forall|k: int|
            #![trigger (read_sidecars(sidecars, count)->Ok_0)[k]]
            #![trigger sidecars[k]]
            0 <= k < count ==> versioned_hash_of(sidecars[k].kzg_commitment@) == Some(
                (read_sidecars(sidecars, count)->Ok_0)[k].0,
            ) && blob_of(sidecars[k].blob@) == Ok::<_, BeaconError>(
                (read_sidecars(sidecars, count)->Ok_0)[k].1,
            ),
    decreases count,
{
    if count > 0 {
        lemma_read_sidecars(sidecars, (count - 1) as nat);
    }
}

/// Where the last blob with a hash stands.
proof fn lemma_last_with_hash(list: Seq<(Seq<u8>, Seq<u8>)>, hash: Seq<u8>) -> (s: int)
    requires
        last_with_hash(list, hash) is Some,
    ensures
        0 <= s < list.len(),
        list[s].0 == hash,
        last_with_hash(list, hash) == Some(list[s].1),
        forall|k: int| s < k < list.len() ==> (#[trigger] list[k]).0 != hash,
    decreases list.len(),
{
    if list.last().0 == hash {
        list.len() - 1
    } else {
        let s = lemma_last_with_hash(list.drop_last(), hash);
        assert forall|k: int| s < k < list.len() implies (#[trigger] list[k]).0 != hash by {
            if k < list.len() - 1 {
                assert(list.drop_last()[k] == list[k]);
            }
        }
        s
    }
}

/// Blobs are collected wherever every sidecar of a response can be read and each hash is that of
/// one of them.
pub proof fn law_blobs_are_collected_where_they_are_there(
    sidecars: Seq<BlobSidecar>,
    hashes: Seq<B256>,
)
    requires
        forall|k: int|
            0 <= k < sidecars.len() ==> versioned_hash_of((#[trigger] sidecars[k]).kzg_commitment@) is Some
                && blob_of(sidecars[k].blob@) is Ok,
        forall|i: int|
            0 <= i < hashes.len() ==> exists|k: int|
                0 <= k < sidecars.len() && versioned_hash_of(
                    (#[trigger] sidecars[k]).kzg_commitment@,
                ) == Some((#[trigger] hashes[i])@),
    ensures
        collected_blobs(sidecars, hashes) is Ok,
{
    lemma_sidecars_read(sidecars, sidecars.len());
    lemma_read_sidecars(sidecars, sidecars.len());
    lemma_all_picked(sidecars, hashes, hashes.len());
}

/// Sidecars that can be read are read.
proof fn lemma_sidecars_read(sidecars: Seq<BlobSidecar>, count: nat)
    requires
        count <= sidecars.len(),
        forall|k: int|
            0 <= k < sidecars.len() ==> versioned_hash_of((#[trigger] sidecars[k]).kzg_commitment@) is Some
                && blob_of(sidecars[k].blob@) is Ok,
    ensures
        read_sidecars(sidecars, count) is Ok,
    decreases count,
{
    if count > 0 {
        lemma_sidecars_read(sidecars, (count - 1) as nat);
        assert(versioned_hash_of(sidecars[count - 1].kzg_commitment@) is Some);
    }
}

/// Hashes that are there are picked.
proof fn lemma_all_picked(sidecars: Seq<BlobSidecar>, hashes: Seq<B256>, count: nat)
    requires
        count <= hashes.len(),
        read_sidecars(sidecars, sidecars.len()) is Ok,
        forall|i: int|
            0 <= i < hashes.len() ==> exists|k: int|
                0 <= k < sidecars.len() && versioned_hash_of(
                    (#[trigger] sidecars[k]).kzg_commitment@,
                ) == Some((#[trigger] hashes[i])@),
    ensures
        blobs_in_order(read_sidecars(sidecars, sidecars.len())->Ok_0, hashes, count) is Ok,
    decreases count,
{
    if count > 0 {
        let list = read_sidecars(sidecars, sidecars.len())->Ok_0;
        lemma_all_picked(sidecars, hashes, (count - 1) as nat);
        lemma_read_sidecars(sidecars, sidecars.len());
        let hash = hashes[count - 1]@;
        let k = choose|k: int|
            0 <= k < sidecars.len() && versioned_hash_of((#[trigger] sidecars[k]).kzg_commitment@)
                == Some(hash);
        assert(list[k].0 == hash);
        lemma_hash_is_found(list, hash, k);
    }
}

/// A hash that stands in a list is found in it.
proof fn lemma_hash_is_found(list: Seq<(Seq<u8>, Seq<u8>)>, hash: Seq<u8>, k: int)
    requires
        0 <= k < list.len(),
        list[k].0 == hash,
    ensures
        last_with_hash(list, hash) is Some,
    decreases list.len(),
{
    if list.last().0 != hash {
        lemma_hash_is_found(list.drop_last(), hash, k);
    }
}

/// A single blob is looked for by its hash, and is that of the first sidecar which has it, where
/// every commitment up to there can be read.
pub proof fn law_found_blob_has_its_hash(
    sidecars: Seq<BlobSidecar>,
    hash: Seq<u8>,
    from: int,
    s: int,
)
    requires
        0 <= from <= s < sidecars.len(),
        versioned_hash_of(sidecars[s].kzg_commitment@) == Some(hash),
        forall|k: int|
            from <= k < s ==> versioned_hash_of((#[trigger] sidecars[k]).kzg_commitment@) is Some
                && versioned_hash_of(sidecars[k].kzg_commitment@) != Some(hash),
    ensures
        blob_with_hash(sidecars, hash, from) == blob_of(sidecars[s].blob@),
    decreases s - from,
{
    if from < s {
        assert(versioned_hash_of(sidecars[from].kzg_commitment@) is Some);
        law_found_blob_has_its_hash(sidecars, hash, from + 1, s);
    }
}

/// A blob that no sidecar has the hash of is not found.
pub proof fn law_absent_blob_is_not_found(sidecars: Seq<BlobSidecar>, hash: Seq<u8>, from: int)
    requires
        0 <= from <= sidecars.len(),
        forall|k: int|
            from <= k < sidecars.len() ==> versioned_hash_of((#[trigger] sidecars[k]).kzg_commitment@)
                != Some(hash),
    ensures
        blob_with_hash(sidecars, hash, from) is Err,
    decreases sidecars.len() - from,
{
    if from < sidecars.len() {
        assert(versioned_hash_of(sidecars[from].kzg_commitment@) != Some(hash));
        law_absent_blob_is_not_found(sidecars, hash, from + 1);
    }
}

/// A versioned hash is the digest of the commitment but for its first byte, which is the version.
/// A blob is what its digits spell, where they spell as many bytes as a blob has.
pub proof fn law_versioned_hash(commitment: Seq<char>, blob: Seq<char>, bytes: Seq<u8>, i: int)
    ensures
        hex_bytes(without_0x(commitment)) == Some(bytes) ==> {
            &&& versioned_hash_of(commitment) matches Some(hash)
            &&& hash[0] == 1
            &&& 0 < i < sha256(bytes).len() ==> hash.len() == sha256(bytes).len() && hash[i]
                == sha256(bytes)[i]
        },
        hex_bytes(without_0x(commitment)) is None ==> versioned_hash_of(commitment) is None,
        hex_bytes(without_0x(blob)) == Some(bytes) && bytes.len() == 131072 ==> blob_of(blob) == Ok::<
            _,
            BeaconError,
        >(bytes),
        blob_of(blob) is Ok ==> hex_bytes(without_0x(blob)) == Some(blob_of(blob)->Ok_0) && (blob_of(
            blob,
        )->Ok_0).len() == 131072,
{
}

} // verus!
