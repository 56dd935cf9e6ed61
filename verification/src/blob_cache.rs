//! A cache of blobs that forgets what was entered longest ago.

use crate::beacon::effective_cache_size;
use crate::types::B256;
use std::num::NonZeroUsize;
use vstd::prelude::*;

verus! {

/// `lru::LruCache`, a map of bounded size that remembers the order of its entries.
#[verifier::external_type_specification]
#[verifier::external_body]
#[verifier::reject_recursive_types(K)]
#[verifier::reject_recursive_types(V)]
#[verifier::reject_recursive_types(S)]
pub struct ExLruCache<K, V, S>(lru::LruCache<K, V, S>);

/// `lru::DefaultHasher`, the hasher of such a map.
#[verifier::external_type_specification]
#[verifier::external_body]
pub struct ExDefaultHasher(lru::DefaultHasher);

/// What a cache holds, the entry that was entered last coming first.
pub uninterp spec fn cache_entries(
    cache: lru::LruCache<(u64, [u8; 32]), Vec<u8>, lru::DefaultHasher>,
) -> Seq<((u64, Seq<u8>), Seq<u8>)>;

/// How many entries a cache was made for.
pub uninterp spec fn cache_capacity(
    cache: lru::LruCache<(u64, [u8; 32]), Vec<u8>, lru::DefaultHasher>,
) -> nat;

/// An entry of a cache: the block and the hash of a blob, and its bytes.
pub type Entry = ((u64, Seq<u8>), Seq<u8>);

/// The bytes that are kept under a key.
pub open spec fn entry_under(entries: Seq<Entry>, key: (u64, Seq<u8>)) -> Option<Seq<u8>>
    decreases entries.len(),
{
    if entries.len() == 0 {
        None
    } else if entries[0].0 == key {
        Some(entries[0].1)
    } else {
        entry_under(entries.skip(1), key)
    }
}

/// The entries under other keys.
pub open spec fn entries_without(entries: Seq<Entry>, key: (u64, Seq<u8>)) -> Seq<Entry>
    decreases entries.len(),
{
    if entries.len() == 0 {
        entries
    } else {
        let rest = entries_without(entries.skip(1), key);
        if entries[0].0 == key {
            rest
        } else {
            seq![entries[0]] + rest
        }
    }
}

/// The entries after one more was entered: it comes first; one that was kept under its key
/// is gone, or else, where the cache was full, the last.
pub open spec fn entries_with(
    entries: Seq<Entry>,
    capacity: nat,
    key: (u64, Seq<u8>),
    value: Seq<u8>,
) -> Seq<Entry> {
    if entry_under(entries, key) is Some {
        seq![(key, value)] + entries_without(entries, key)
    } else if entries.len() == capacity {
        seq![(key, value)] + entries.drop_last()
    } else {
        seq![(key, value)] + entries
    }
}

/// `lru::LruCache::new`: a cache without entries, of the given capacity.
#[verifier::external_body]
fn lru_new(capacity: usize) -> (r: lru::LruCache<(u64, [u8; 32]), Vec<u8>, lru::DefaultHasher>)
    requires
        0 < capacity <= 0x1_0000_0000,
    ensures
        cache_entries(r) == Seq::<Entry>::empty(),
        cache_capacity(r) == capacity,
{
    lru::LruCache::new(NonZeroUsize::new(capacity).unwrap())
}

/// `lru::LruCache::peek`: the value under a key, where there is one. The order of the
/// entries stays as it is.
#[verifier::external_body]
fn lru_peek(
    cache: &lru::LruCache<(u64, [u8; 32]), Vec<u8>, lru::DefaultHasher>,
    block: u64,
    hash: &B256,
) -> (r: Option<Vec<u8>>)
    ensures
        r is Some <==> entry_under(cache_entries(*cache), (block, hash@)) is Some,
        r matches Some(v) ==> entry_under(cache_entries(*cache), (block, hash@)) == Some(v@),
{
    cache.peek(&(block, hash.0)).cloned()
}

/// `lru::LruCache::put`: enters a value under a key, in front of the others. A value that
/// was under the key is replaced, or else, where the cache is full, the last entry goes.
#[verifier::external_body]
fn lru_put(
    cache: &mut lru::LruCache<(u64, [u8; 32]), Vec<u8>, lru::DefaultHasher>,
    block: u64,
    hash: &B256,
    value: Vec<u8>,
)
    ensures
        cache_entries(*final(cache)) == entries_with(
            cache_entries(*old(cache)),
            cache_capacity(*old(cache)),
            (block, hash@),
            value@,
        ),
        cache_capacity(*final(cache)) == cache_capacity(*old(cache)),
{
    cache.put((block, hash.0), value);
}

/// A cache of blobs, by block and versioned hash.
pub struct BlobCache {
    cache: lru::LruCache<(u64, [u8; 32]), Vec<u8>, lru::DefaultHasher>,
}

impl View for BlobCache {
    type V = Seq<Entry>;

    closed spec fn view(&self) -> Seq<Entry> {
        cache_entries(self.cache)
    }
}

/// Whether no key comes twice.
pub open spec fn keys_differ(entries: Seq<Entry>) -> bool {
    forall|i: int, j: int|
        0 <= i < j < entries.len() ==> (#[trigger] entries[i]).0 != (#[trigger] entries[j]).0
}

impl BlobCache {
    /// How many blobs the cache holds at most.
    pub closed spec fn capacity(self) -> nat {
        cache_capacity(self.cache)
    }

    /// There is room for a blob, no more blobs are kept than there is room for, and none
    /// is kept twice.
    pub open spec fn wf(self) -> bool {
        &&& self.capacity() > 0
        &&& self@.len() <= self.capacity()
        &&& keys_differ(self@)
    }

    /// A cache without blobs, with room for `cache_size` of them, and for one at least.
    pub fn new(cache_size: usize) -> (r: BlobCache)
        requires
            cache_size <= 0x1_0000_0000,
        ensures
            r.wf(),
            r@ == Seq::<Entry>::empty(),
            r.capacity() == (if cache_size == 0 {
                1
            } else {
                cache_size as nat
            }),
    {
        BlobCache { cache: lru_new(effective_cache_size(cache_size)) }
    }

    /// A blob, where it is kept. Does not count as a use of it.
    pub fn get(&self, l1_block_number: u64, versioned_hash: B256) -> (r: Option<Vec<u8>>)
        ensures
            r is Some <==> entry_under(self@, (l1_block_number, versioned_hash@)) is Some,
            r matches Some(blob) ==> entry_under(self@, (l1_block_number, versioned_hash@)) == Some(
                blob@,
            ),
    {
        lru_peek(&self.cache, l1_block_number, &versioned_hash)
    }

    /// Keeps a blob. Where there is no room, the one that was entered longest ago goes.
    pub fn put(&mut self, l1_block_number: u64, versioned_hash: B256, blob: Vec<u8>)
        requires
            old(self).wf(),
        ensures
            final(self).wf(),
            final(self).capacity() == old(self).capacity(),
            final(self)@ == entries_with(
                old(self)@,
                old(self).capacity(),
                (l1_block_number, versioned_hash@),
                blob@,
            ),
    {
        let ghost key = (l1_block_number, versioned_hash@);
        proof {
            lemma_entries_with(self@, self.capacity(), key, blob@);
        }
        lru_put(&mut self.cache, l1_block_number, &versioned_hash, blob);
    }
}

/// An entry is found exactly where its key is.
proof fn lemma_entry_under(entries: Seq<Entry>, key: (u64, Seq<u8>))
    ensures
        entry_under(entries, key) is Some <==> exists|i: int|
            0 <= i < entries.len() && (#[trigger] entries[i]).0 == key,
    decreases entries.len(),
{
    if entries.len() > 0 {
        let rest = entries.skip(1);
        lemma_entry_under(rest, key);
        if entries[0].0 != key {
            if entry_under(rest, key) is Some {
                let i = choose|i: int| 0 <= i < rest.len() && (#[trigger] rest[i]).0 == key;
                assert(entries[i + 1].0 == key);
            }
            if exists|i: int| 0 <= i < entries.len() && (#[trigger] entries[i]).0 == key {
                let i = choose|i: int| 0 <= i < entries.len() && (#[trigger] entries[i]).0 == key;
                assert(rest[i - 1].0 == key);
            }
        }
    }
}

/// What is left without a key are entries of the list under other keys, fewer where the key
/// was there, and whatever was found under another key is found still.
proof fn lemma_entries_without(entries: Seq<Entry>, key: (u64, Seq<u8>), other: (u64, Seq<u8>))
    ensures
        entries_without(entries, key).len() <= entries.len(),
        entry_under(entries, key) is Some ==> entries_without(entries, key).len() < entries.len(),
        forall|i: int|
            0 <= i < entries_without(entries, key).len() ==> (#[trigger] entries_without(
                entries,
                key,
            )[i]).0 != key && exists|j: int|
                0 <= j < entries.len() && #[trigger] entries[j] == entries_without(entries, key)[i],
        keys_differ(entries) ==> keys_differ(entries_without(entries, key)),
        other != key ==> entry_under(entries_without(entries, key), other) == entry_under(
            entries,
            other,
        ),
    decreases entries.len(),
{
    if entries.len() > 0 {
        let rest = entries.skip(1);
        lemma_entries_without(rest, key, other);
        let left = entries_without(entries, key);
        let left_rest = entries_without(rest, key);
        assert forall|i: int| 0 <= i < left.len() implies (#[trigger] left[i]).0 != key && exists|
            j: int,
        |
            0 <= j < entries.len() && #[trigger] entries[j] == left[i] by {
            if entries[0].0 == key {
                let j = choose|j: int| 0 <= j < rest.len() && #[trigger] rest[j] == left_rest[i];
                assert(entries[j + 1] == left[i]);
            } else if i == 0 {
                assert(entries[0] == left[0]);
            } else {
                assert(left[i] == left_rest[i - 1]);
                let j = choose|j: int|
                    0 <= j < rest.len() && #[trigger] rest[j] == left_rest[i - 1];
                assert(entries[j + 1] == left[i]);
            }
        }
        if keys_differ(entries) {
            assert forall|i: int, j: int| 0 <= i < j < rest.len() implies (#[trigger] rest[i]).0 != (
            #[trigger] rest[j]).0 by {
                assert(entries[i + 1].0 != entries[j + 1].0);
            }
            assert forall|i: int, j: int| 0 <= i < j < left.len() implies (#[trigger] left[i]).0 != (
            #[trigger] left[j]).0 by {
                if entries[0].0 != key {
                    assert(left[j] == left_rest[j - 1]);
                    if i == 0 {
                        let m = choose|m: int|
                            0 <= m < rest.len() && #[trigger] rest[m] == left_rest[j - 1];
                        assert(entries[m + 1].0 != entries[0].0);
                    } else {
                        assert(left[i] == left_rest[i - 1]);
                    }
                }
            }
        }
        if other != key && entries[0].0 != key {
            assert(left.skip(1) =~= left_rest);
        }
    }
}

/// What entering a blob does: it is found under its key, the keys still differ, and no more
/// blobs are kept than there is room for.
proof fn lemma_entries_with(
    entries: Seq<Entry>,
    capacity: nat,
    key: (u64, Seq<u8>),
    value: Seq<u8>,
)
    requires
        capacity > 0,
        entries.len() <= capacity,
        keys_differ(entries),
    ensures
        entry_under(entries_with(entries, capacity, key, value), key) == Some(value),
        entries_with(entries, capacity, key, value).len() <= capacity,
        keys_differ(entries_with(entries, capacity, key, value)),
{
    let after = entries_with(entries, capacity, key, value);
    lemma_entry_under(entries, key);
    lemma_entries_without(entries, key, key);
    let tail = after.skip(1);
    assert(after[0] == (key, value));
    assert forall|i: int, j: int| 0 <= i < j < after.len() implies (#[trigger] after[i]).0 != (
    #[trigger] after[j]).0 by {
        if entry_under(entries, key) is Some {
            assert(after[j] == entries_without(entries, key)[j - 1]);
            if i > 0 {
                assert(after[i] == entries_without(entries, key)[i - 1]);
            }
        } else {
            assert(after[j] == entries[j - 1]);
            if i > 0 {
                assert(after[i] == entries[i - 1]);
            }
        }
    }
}

/// A blob that was just entered is found, and every other one that was found before is
/// found still, but for the one that made room for it.
pub proof fn law_put_then_get(
    entries: Seq<Entry>,
    capacity: nat,
    key: (u64, Seq<u8>),
    value: Seq<u8>,
    other: (u64, Seq<u8>),
)
    requires
        capacity > 0,
        entries.len() <= capacity,
        keys_differ(entries),
        other != key,
    ensures
        entry_under(entries_with(entries, capacity, key, value), key) == Some(value),
        entry_under(entries, key) is Some || entries.len() < capacity || entries.last().0 != other
            ==> entry_under(entries_with(entries, capacity, key, value), other) == entry_under(
            entries,
            other,
        ),
{
    let after = entries_with(entries, capacity, key, value);
    lemma_entries_with(entries, capacity, key, value);
    lemma_entries_without(entries, key, other);
    if entry_under(entries, key) is Some {
        assert(after.skip(1) =~= entries_without(entries, key));
    } else if entries.len() == capacity {
        assert(after.skip(1) =~= entries.drop_last());
        if entries.last().0 != other {
            lemma_entry_under_drop_last(entries, other);
        }
    } else {
        assert(after.skip(1) =~= entries);
    }
}

/// Without a last entry under another key, the same is found.
proof fn lemma_entry_under_drop_last(entries: Seq<Entry>, key: (u64, Seq<u8>))
    requires
        entries.len() > 0,
        entries.last().0 != key,
    ensures
        entry_under(entries.drop_last(), key) == entry_under(entries, key),
    decreases entries.len(),
{
    if entries.len() > 1 {
        assert(entries.skip(1).drop_last() =~= entries.drop_last().skip(1));
        lemma_entry_under_drop_last(entries.skip(1), key);
    } else {
        assert(entries.skip(1) =~= Seq::empty());
        assert(entries.drop_last() =~= Seq::empty());
    }
}

/// A blob that is found is one that is kept under the block and the hash that were asked for, and
/// none is found exactly where none is kept under them.
pub proof fn law_found_blob_is_kept_under_its_key(entries: Seq<Entry>, key: (u64, Seq<u8>), i: int)
    requires
        keys_differ(entries),
    ensures
        0 <= i < entries.len() && entries[i].0 == key ==> entry_under(entries, key) == Some(
            entries[i].1,
        ),
        entry_under(entries, key) is None <==> forall|j: int|
            0 <= j < entries.len() ==> (#[trigger] entries[j]).0 != key,
    decreases entries.len(),
{
    lemma_entry_under(entries, key);
    if entries.len() > 0 {
        let rest = entries.skip(1);
        assert(keys_differ(rest)) by {
            assert forall|a: int, b: int| 0 <= a < b < rest.len() implies (#[trigger] rest[a]).0 != (
            #[trigger] rest[b]).0 by {
                assert(rest[a] == entries[a + 1] && rest[b] == entries[b + 1]);
            }
        }
        if 0 < i < entries.len() && entries[i].0 == key {
            assert(entries[0].0 != entries[i].0);
            assert(rest[i - 1] == entries[i]);
            law_found_blob_is_kept_under_its_key(rest, key, i - 1);
        }
    }
}

/// Where there is no room for a new blob, the one that was entered longest ago goes, and only
/// that.
pub proof fn law_oldest_makes_room(
    entries: Seq<Entry>,
    capacity: nat,
    key: (u64, Seq<u8>),
    value: Seq<u8>,
)
    requires
        0 < entries.len() == capacity,
        keys_differ(entries),
        forall|i: int| 0 <= i < entries.len() ==> (#[trigger] entries[i]).0 != key,
    ensures
        ({
            let after = entries_with(entries, capacity, key, value);
            &&& after.len() == capacity
            &&& after[0] == (key, value)
            &&& forall|i: int| 1 <= i < capacity ==> #[trigger] after[i] == entries[i - 1]
            &&& entry_under(after, entries.last().0) is None
        }),
{
    let after = entries_with(entries, capacity, key, value);
    let last = entries.last().0;
    lemma_entry_under(entries, key);
    lemma_entry_under(after, last);
    if entry_under(after, last) is Some {
        let j = choose|j: int| 0 <= j < after.len() && (#[trigger] after[j]).0 == last;
        assert(entries[entries.len() - 1].0 != key);
        assert(j > 0);
        assert(entries[j - 1].0 != entries[entries.len() - 1].0);
    }
}

} // verus!
