//! The check of a block's transactions: the anchors that they refer to, their proofs,
//! and the authorisation of those that belong to an account.

use crate::blob::{DecodedAnchorInfo, ParsedBlock, ParsedTransaction};
use crate::groth16::{
    transfer_scalars, verified, Groth16Error, Groth16Verifier, KeyView, TransferPublicInputs,
};
use crate::types::{be_value, bn254_order, zero_address, Address, BlockData, BlockView, B256};
use crate::validators::{evidence_views, lemma_evidence_push, EvidenceView, FraudEvidence};
use std::collections::HashMap;
use vstd::prelude::*;

verus! {

broadcast use vstd::std_specs::hash::group_hash_axioms;

/// The number under which an anchor is kept.
pub open spec fn anchor_key(block_nr: u32, update_nr: u32, is_deposit: bool) -> u128 {
    (block_nr as int * 0x2_0000_0000 + update_nr as int * 2 + if is_deposit {
        1int
    } else {
        0
    }) as u128
}

/// The number under which the last update of a block is kept.
spec fn update_key(block_nr: u32, is_deposit: bool) -> u64 {
    (block_nr as int * 2 + if is_deposit {
        1int
    } else {
        0
    }) as u64
}

/// The block of the anchor that is kept under a number.
pub open spec fn key_block_nr(key: u128) -> int {
    key as int / 0x2_0000_0000
}

/// Different anchors are kept under different numbers.
pub proof fn lemma_anchor_key(a: (u32, u32, bool), b: (u32, u32, bool))
    ensures
        anchor_key(a.0, a.1, a.2) == anchor_key(b.0, b.1, b.2) ==> a == b,
        key_block_nr(anchor_key(a.0, a.1, a.2)) == a.0,
        anchor_key(a.0, a.1, a.2) < 0x2_0000_0000_0000_0000,
{
}

/// What a lookup table holds.
#[verifier::ext_equal]
pub struct AnchorsView {
    pub anchors: Map<u128, B256>,
    pub current_block_nr: u64,
}

/// Whether `last` is the last update of a block, of one kind, that an anchor is known of.
pub open spec fn is_last_update(
    anchors: Map<u128, B256>,
    block_nr: u32,
    is_deposit: bool,
    last: Option<u32>,
) -> bool {
    match last {
        Some(m) => {
            &&& anchors.contains_key(anchor_key(block_nr, m, is_deposit))
            &&& forall|u: u32| #[trigger]
                anchors.contains_key(anchor_key(block_nr, u, is_deposit)) ==> u <= m
        },
        None => forall|u: u32| !#[trigger] anchors.contains_key(anchor_key(block_nr, u, is_deposit)),
    }
}

/// Whether an anchor of a block is known of the given update or a later one.
pub open spec fn reaches_update(
    anchors: Map<u128, B256>,
    block_nr: u32,
    update_nr: u32,
    is_deposit: bool,
) -> bool {
    exists|m: u32| #[trigger]
        anchors.contains_key(anchor_key(block_nr, m, is_deposit)) && update_nr <= m
}

/// Whether an anchor can be referred to: its block is no later one, and it is not past the
/// updates that are known of the block, if any are.
pub open spec fn valid_reference(
    v: AnchorsView,
    block_nr: u32,
    update_nr: u32,
    is_deposit: bool,
) -> bool {
    &&& block_nr <= v.current_block_nr
    &&& reaches_update(v.anchors, block_nr, update_nr, is_deposit) || is_last_update(
        v.anchors,
        block_nr,
        is_deposit,
        None,
    )
}

/// The anchors that a list adds, later entries taking the place of earlier ones.
pub open spec fn with_anchors(
    anchors: Map<u128, B256>,
    list: Seq<(u32, u32, bool, B256)>,
) -> Map<u128, B256>
    decreases list.len(),
{
    if list.len() == 0 {
        anchors
    } else {
        let last = list.last();
        with_anchors(anchors, list.drop_last()).insert(anchor_key(last.0, last.1, last.2), last.3)
    }
}

/// The anchors of earlier blocks than `from_block`.
pub open spec fn anchors_before(anchors: Map<u128, B256>, from_block: u32) -> Map<u128, B256> {
    Map::new(
        |k: u128| anchors.contains_key(k) && key_block_nr(k) < from_block,
        |k: u128| anchors[k],
    )
}

/// The anchors of blocks, by block, update and kind of update.
#[derive(Debug)]
pub struct AnchorLookup {
    anchors: HashMap<u128, B256>,
    /// Block that is being validated.
    current_block_nr: u64,
    /// Last update of a block, of one kind, that an anchor is known of.
    max_update_nrs: HashMap<u64, u32>,
}

impl View for AnchorLookup {
    type V = AnchorsView;

    closed spec fn view(&self) -> AnchorsView {
        AnchorsView { anchors: self.anchors@, current_block_nr: self.current_block_nr }
    }
}

/// The number under which an anchor is kept.
fn key_of(block_nr: u32, update_nr: u32, is_deposit: bool) -> (r: u128)
    ensures
        r == anchor_key(block_nr, update_nr, is_deposit),
{
    let kind: u128 = if is_deposit {
        1
    } else {
        0
    };
    (block_nr as u128) * 0x2_0000_0000 + (update_nr as u128) * 2 + kind
}

/// The number under which the last update of a block is kept.
fn update_key_of(block_nr: u32, is_deposit: bool) -> (r: u64)
    ensures
        r == update_key(block_nr, is_deposit),
{
    let kind: u64 = if is_deposit {
        1
    } else {
        0
    };
    (block_nr as u64) * 2 + kind
}

impl AnchorLookup {
    spec fn last_of(self, block_nr: u32, is_deposit: bool) -> Option<u32> {
        if self.max_update_nrs@.contains_key(update_key(block_nr, is_deposit)) {
            Some(self.max_update_nrs@[update_key(block_nr, is_deposit)])
        } else {
            None
        }
    }

    /// Every number stands for an anchor, and the last updates are those of the anchors.
    pub closed spec fn wf(self) -> bool {
        &&& forall|k: u128| #[trigger]
            self.anchors@.contains_key(k) ==> k < 0x2_0000_0000_0000_0000
        &&& forall|b: u32, d: bool|
            is_last_update(self.anchors@, b, d, #[trigger] self.last_of(b, d))
    }

    /// A table without anchors.
    pub fn new() -> (r: AnchorLookup)
        ensures
            r.wf(),
            r@.anchors == Map::<u128, B256>::empty(),
            r@.current_block_nr == 0,
    {
        AnchorLookup {
            anchors: HashMap::new(),
            current_block_nr: 0,
            max_update_nrs: HashMap::new(),
        }
    }

    /// Notes the block that is being validated.
    pub fn set_current_block(&mut self, block_nr: u64)
        requires
            old(self).wf(),
        ensures
            final(self).wf(),
            final(self)@ == (AnchorsView { current_block_nr: block_nr, ..old(self)@ }),
    {
        let ghost before = *self;
        self.current_block_nr = block_nr;
        assert forall|b: u32, d: bool| is_last_update(
            self.anchors@,
            b,
            d,
            #[trigger] self.last_of(b, d),
        ) by {
            assert(is_last_update(before.anchors@, b, d, before.last_of(b, d)));
        }
    }

    /// The block that is being validated.
    pub fn current_block_nr(&self) -> (r: u64)
        ensures
            r == self@.current_block_nr,
    {
        self.current_block_nr
    }

    /// Enters an anchor.
    pub fn insert(&mut self, block_nr: u32, update_nr: u32, is_deposit: bool, anchor: B256)
        requires
            old(self).wf(),
        ensures
            final(self).wf(),
            final(self)@ == (AnchorsView {
                anchors: old(self)@.anchors.insert(
                    anchor_key(block_nr, update_nr, is_deposit),
                    anchor,
                ),
                ..old(self)@
            }),
    {
        let ghost before = *self;
        let key = key_of(block_nr, update_nr, is_deposit);
        self.anchors.insert(key, anchor);
        let last_key = update_key_of(block_nr, is_deposit);
        let last = self.last_under(last_key);
        let raise: bool = match last {
            Some(max) => update_nr > max,
            None => true,
        };
        if raise {
            self.max_update_nrs.insert(last_key, update_nr);
        }
        proof {
            assert forall|b: u32, d: bool| is_last_update(
                self.anchors@,
                b,
                d,
                #[trigger] self.last_of(b, d),
            ) by {
                assert(is_last_update(before.anchors@, b, d, before.last_of(b, d)));
                assert forall|u: u32| #[trigger]
                    self.anchors@.contains_key(anchor_key(b, u, d)) <==> before.anchors@.contains_key(
                        anchor_key(b, u, d),
                    ) || (b == block_nr && u == update_nr && d == is_deposit) by {
                    lemma_anchor_key((b, u, d), (block_nr, update_nr, is_deposit));
                }
                if b == block_nr && d == is_deposit {
                    assert(self.anchors@.contains_key(anchor_key(b, update_nr, d)));
                } else {
                    assert(update_key(b, d) != update_key(block_nr, is_deposit));
                }
            }
            lemma_anchor_key(
                (block_nr, update_nr, is_deposit),
                (block_nr, update_nr, is_deposit),
            );
        }
    }

    /// What is kept under a number of a block.
    fn last_under(&self, key: u64) -> (r: Option<u32>)
        ensures
            r == (if self.max_update_nrs@.contains_key(key) {
                Some(self.max_update_nrs@[key])
            } else {
                None
            }),
    {
        match self.max_update_nrs.get(&key) {
            Some(max) => Some(*max),
            None => None,
        }
    }

    /// Enters a list of anchors.
    pub fn insert_batch(&mut self, anchors: &[(u32, u32, bool, B256)])
        requires
            old(self).wf(),
        ensures
            final(self).wf(),
            final(self)@ == (AnchorsView {
                anchors: with_anchors(old(self)@.anchors, anchors@),
                ..old(self)@
            }),
    {
        let ghost v = self@;
        let mut i: usize = 0;
        while i < anchors.len()
            invariant
                i <= anchors@.len(),
                self.wf(),
                self@ == (AnchorsView {
                    anchors: with_anchors(v.anchors, anchors@.take(i as int)),
                    ..v
                }),
            decreases anchors@.len() - i,
        {
            let (block_nr, update_nr, is_deposit, anchor) = anchors[i];
            self.insert(block_nr, update_nr, is_deposit, anchor);
            assert(anchors@.take(i + 1).drop_last() =~= anchors@.take(i as int));
            i += 1;
        }
        assert(anchors@.take(i as int) =~= anchors@);
    }

    /// An anchor, where it is known.
    pub fn get(&self, block_nr: u32, update_nr: u32, is_deposit: bool) -> (r: Option<B256>)
        ensures
            r == (if self@.anchors.contains_key(anchor_key(block_nr, update_nr, is_deposit)) {
                Some(self@.anchors[anchor_key(block_nr, update_nr, is_deposit)])
            } else {
                None
            }),
    {
        let key = key_of(block_nr, update_nr, is_deposit);
        match self.anchors.get(&key) {
            Some(anchor) => Some(*anchor),
            None => None,
        }
    }

    /// The last update of a block, of one kind, that an anchor is known of.
    pub fn get_max_update_nr(&self, block_nr: u32, is_deposit: bool) -> (r: Option<u32>)
        requires
            self.wf(),
        ensures
            is_last_update(self@.anchors, block_nr, is_deposit, r),
    {
        assert(is_last_update(
            self.anchors@,
            block_nr,
            is_deposit,
            self.last_of(block_nr, is_deposit),
        ));
        let key = update_key_of(block_nr, is_deposit);
        self.last_under(key)
    }

    /// Whether an anchor can be referred to.
    pub fn is_valid_reference(&self, block_nr: u32, update_nr: u32, is_deposit: bool) -> (r: bool)
        requires
            self.wf(),
        ensures
            r == valid_reference(self@, block_nr, update_nr, is_deposit),
    {
        if block_nr as u64 > self.current_block_nr {
            return false;
        }
        match self.get_max_update_nr(block_nr, is_deposit) {
            Some(max) => {
                assert(self@.anchors.contains_key(anchor_key(block_nr, max, is_deposit)));
                update_nr <= max
            },
            None => true,
        }
    }

    /// Forgets the anchors of a block and of all later ones.
    pub fn rollback_from(&mut self, from_block: u32)
        requires
            old(self).wf(),
        ensures
            final(self).wf(),
            final(self)@ == (AnchorsView {
                anchors: anchors_before(old(self)@.anchors, from_block),
                ..old(self)@
            }),
    {
        let ghost before = *self;
        let bound: u128 = (from_block as u128) * 0x2_0000_0000;
        let mut keys: Vec<u128> = Vec::new();
        for entry in it: self.anchors.iter()
            invariant
                self.anchors@ == before.anchors@,
                it.seq().no_duplicates(),
                forall|i: int|
                    0 <= i < it.seq().len() ==> self.anchors@.contains_key(
                        *(#[trigger] it.seq()[i]).0,
                    ),
                forall|k: u128| #[trigger]
                    self.anchors@.contains_key(k) ==> it.seq().contains((&k, &self.anchors@[k])),
                keys@.len() == it.index(),
                forall|i: int|
                    #![trigger keys@[i]]
                    #![trigger it.seq()[i]]
                    0 <= i < keys@.len() ==> keys@[i] == *it.seq()[i].0,
        {
            keys.push(*entry.0);
        }
        assert(forall|k: u128| #[trigger]
            before.anchors@.contains_key(k) ==> keys@.contains(k));
        let mut i: usize = 0;
        while i < keys.len()
            invariant
                i <= keys@.len(),
                self.max_update_nrs@ == before.max_update_nrs@,
                self.current_block_nr == before.current_block_nr,
                forall|k: u128| #[trigger]
                    self.anchors@.contains_key(k) ==> before.anchors@.contains_key(k)
                        && self.anchors@[k] == before.anchors@[k],
                forall|k: u128| #[trigger]
                    before.anchors@.contains_key(k) && k < bound ==> self.anchors@.contains_key(k),
                forall|j: int|
                    0 <= j < i && keys@[j] >= bound ==> !self.anchors@.contains_key(
                        #[trigger] keys@[j],
                    ),
            decreases keys@.len() - i,
        {
            let key: u128 = keys[i];
            if key >= bound {
                self.anchors.remove(&key);
            }
            i += 1;
        }
        let last_bound: u64 = (from_block as u64) * 2;
        let mut last_keys: Vec<u64> = Vec::new();
        for entry in it: self.max_update_nrs.iter()
            invariant
                self.max_update_nrs@ == before.max_update_nrs@,
                it.seq().no_duplicates(),
                forall|i: int|
                    0 <= i < it.seq().len() ==> self.max_update_nrs@.contains_key(
                        *(#[trigger] it.seq()[i]).0,
                    ),
                forall|k: u64| #[trigger]
                    self.max_update_nrs@.contains_key(k) ==> it.seq().contains(
                        (&k, &self.max_update_nrs@[k]),
                    ),
                last_keys@.len() == it.index(),
                forall|i: int|
                    #![trigger last_keys@[i]]
                    #![trigger it.seq()[i]]
                    0 <= i < last_keys@.len() ==> last_keys@[i] == *it.seq()[i].0,
        {
            last_keys.push(*entry.0);
        }
        assert(forall|k: u64| #[trigger]
            before.max_update_nrs@.contains_key(k) ==> last_keys@.contains(k));
        let ghost kept = self.anchors@;
        let mut m: usize = 0;
        while m < last_keys.len()
            invariant
                m <= last_keys@.len(),
                self.anchors@ == kept,
                self.current_block_nr == before.current_block_nr,
                forall|k: u64| #[trigger]
                    self.max_update_nrs@.contains_key(k) ==> before.max_update_nrs@.contains_key(k)
                        && self.max_update_nrs@[k] == before.max_update_nrs@[k],
                forall|k: u64| #[trigger]
                    before.max_update_nrs@.contains_key(k) && k < last_bound
                        ==> self.max_update_nrs@.contains_key(k),
                forall|j: int|
                    0 <= j < m && last_keys@[j] >= last_bound
                        ==> !self.max_update_nrs@.contains_key(#[trigger] last_keys@[j]),
            decreases last_keys@.len() - m,
        {
            let key: u64 = last_keys[m];
            if key >= last_bound {
                self.max_update_nrs.remove(&key);
            }
            m += 1;
        }
        proof {
            assert forall|k: u128| #[trigger] self.anchors@.contains_key(k) <==> (
            before.anchors@.contains_key(k) && key_block_nr(k) < from_block) by {
                if before.anchors@.contains_key(k) {
                    assert(keys@.contains(k));
                    let j = choose|j: int| 0 <= j < keys@.len() && keys@[j] == k;
                    assert(keys@[j] == k);
                }
            }
            assert(self.anchors@ =~= anchors_before(before.anchors@, from_block));
            assert forall|b: u32, d: bool| is_last_update(
                self.anchors@,
                b,
                d,
                #[trigger] self.last_of(b, d),
            ) by {
                assert(is_last_update(before.anchors@, b, d, before.last_of(b, d)));
                assert forall|u: u32| #[trigger]
                    self.anchors@.contains_key(anchor_key(b, u, d)) <==> (
                before.anchors@.contains_key(anchor_key(b, u, d)) && b < from_block) by {
                    lemma_anchor_key((b, u, d), (b, u, d));
                }
                let k = update_key(b, d);
                assert(k < last_bound <==> b < from_block);
                if before.max_update_nrs@.contains_key(k) {
                    assert(last_keys@.contains(k));
                    let j = choose|j: int| 0 <= j < last_keys@.len() && last_keys@[j] == k;
                    assert(last_keys@[j] == k);
                    if b < from_block {
                        let last = before.max_update_nrs@[k];
                        assert(before.anchors@.contains_key(anchor_key(b, last, d)));
                        assert(self.anchors@.contains_key(anchor_key(b, last, d)));
                    }
                }
            }
        }
    }

    /// All anchors, in no particular order.
    pub fn all_anchors(&self) -> (r: Vec<(u32, u32, bool, B256)>)
        requires
            self.wf(),
        ensures
            r@.len() == self@.anchors.len(),
            forall|i: int|
                0 <= i < r@.len() ==> {
                    let key = anchor_key((#[trigger] r@[i]).0, r@[i].1, r@[i].2);
                    self@.anchors.contains_key(key) && self@.anchors[key] == r@[i].3
                },
            forall|k: u128| #[trigger]
                self@.anchors.contains_key(k) ==> exists|i: int|
                    0 <= i < r@.len() && anchor_key((#[trigger] r@[i]).0, r@[i].1, r@[i].2) == k,
    {
        let mut list: Vec<(u32, u32, bool, B256)> = Vec::new();
        for entry in it: self.anchors.iter()
            invariant
                self.wf(),
                it.seq().len() == self.anchors@.len(),
                it.seq().no_duplicates(),
                forall|i: int|
                    0 <= i < it.seq().len() ==> self.anchors@.contains_key(
                        *(#[trigger] it.seq()[i]).0,
                    ) && self.anchors@[*it.seq()[i].0] == *it.seq()[i].1,
                forall|k: u128| #[trigger]
                    self.anchors@.contains_key(k) ==> it.seq().contains((&k, &self.anchors@[k])),
                list@.len() == it.index(),
                forall|i: int|
                    #![trigger list@[i]]
                    #![trigger it.seq()[i]]
                    0 <= i < list@.len() ==> anchor_key(list@[i].0, list@[i].1, list@[i].2)
                        == *it.seq()[i].0 && list@[i].3 == *it.seq()[i].1,
        {
            let key: u128 = *entry.0;
            assert(self.anchors@.contains_key(key));
            let block_nr: u32 = (key / 0x2_0000_0000) as u32;
            let rest: u128 = key % 0x2_0000_0000;
            let update_nr: u32 = (rest / 2) as u32;
            let is_deposit: bool = rest % 2 == 1;
            assert(anchor_key(block_nr, update_nr, is_deposit) == key);
            list.push((block_nr, update_nr, is_deposit, *entry.1));
        }
        list
    }

    /// Number of anchors.
    pub fn len(&self) -> (r: usize)
        ensures
            r == self@.anchors.len(),
    {
        self.anchors.len()
    }

    /// Whether there is no anchor.
    pub fn is_empty(&self) -> (r: bool)
        ensures
            r == self@.anchors.is_empty(),
    {
        self.anchors.is_empty()
    }
}

impl Default for AnchorLookup {
    fn default() -> (r: Self)
        ensures
            r.wf(),
            r@.anchors == Map::<u128, B256>::empty(),
            r@.current_block_nr == 0,
    {
        Self::new()
    }
}

/// After a rollback exactly the anchors of earlier blocks are known, and rolling back
/// further forgets as much as rolling back at once.
pub proof fn law_rollback(anchors: Map<u128, B256>, from_block: u32, earlier: u32)
    requires
        earlier <= from_block,
    ensures
        forall|b: u32, u: u32, d: bool| #[trigger]
            anchors_before(anchors, from_block).contains_key(anchor_key(b, u, d)) <==> (
            anchors.contains_key(anchor_key(b, u, d)) && b < from_block),
        anchors_before(anchors_before(anchors, from_block), earlier) == anchors_before(
            anchors,
            earlier,
        ),
{
    assert forall|b: u32, u: u32, d: bool| #[trigger]
        anchors_before(anchors, from_block).contains_key(anchor_key(b, u, d)) <==> (
    anchors.contains_key(anchor_key(b, u, d)) && b < from_block) by {
        lemma_anchor_key((b, u, d), (b, u, d));
    }
    assert(anchors_before(anchors_before(anchors, from_block), earlier) =~= anchors_before(
        anchors,
        earlier,
    ));
}

/// The public inputs of a transaction's proof.
pub open spec fn inputs_of(
    tx: ParsedTransaction,
    info: DecodedAnchorInfo,
    anchor: B256,
) -> TransferPublicInputs {
    TransferPublicInputs {
        anchor,
        eth_key: info.eth_key,
        nullifier0: tx.nullifier0,
        nullifier1: tx.nullifier1,
        leaf0: tx.leaf0,
        leaf1: tx.leaf1,
        leaf2: tx.leaf2,
    }
}

/// What is held against a transaction.
pub enum VerdictView {
    /// Nothing.
    NoFraud,
    /// That it is fraudulent.
    Fraud(EvidenceView),
    /// That it is fraudulent unless the account has authorised it.
    NeedsAuthorization { evidence: EvidenceView, eth_key: Address, fields: [B256; 5] },
}

/// What is held against a transaction of which it is known whether its proof is valid.
pub open spec fn proof_verdict(
    header: BlockView,
    tx_nr: u64,
    tx: ParsedTransaction,
    info: DecodedAnchorInfo,
    proof_valid: bool,
) -> VerdictView {
    if !proof_valid {
        VerdictView::Fraud(
            EvidenceView::InvalidTransactionProof {
                block: header,
                tx_nr,
                anchor_block_nr: info.block_nr,
                anchor_update_nr: info.update_nr,
                is_deposit: info.is_deposit,
            },
        )
    } else if info.eth_key != zero_address() {
        VerdictView::NeedsAuthorization {
            evidence: EvidenceView::MissingEthKeyAuth {
                block: header,
                tx_nr,
                eth_key: info.eth_key,
                nullifiers: [tx.nullifier0, tx.nullifier1],
                leaves: [tx.leaf0, tx.leaf1, tx.leaf2],
                anchor_block_nr: info.block_nr,
                anchor_update_nr: info.update_nr,
                is_deposit: info.is_deposit,
            },
            eth_key: info.eth_key,
            fields: [tx.nullifier0, tx.nullifier1, tx.leaf0, tx.leaf1, tx.leaf2],
        }
    } else {
        VerdictView::NoFraud
    }
}

/// What is held against a transaction. One whose anchor is not known is left alone: that
/// may be a matter of missing data.
pub open spec fn tx_verdict(
    key: KeyView,
    anchors: AnchorsView,
    header: BlockView,
    tx_nr: u64,
    tx: ParsedTransaction,
    info: DecodedAnchorInfo,
) -> VerdictView {
    let at = anchor_key(info.block_nr, info.update_nr, info.is_deposit);
    if !valid_reference(anchors, info.block_nr, info.update_nr, info.is_deposit) {
        VerdictView::Fraud(
            EvidenceView::InvalidAnchorReference {
                block: header,
                tx_nr,
                anchor_block_nr: info.block_nr,
                anchor_update_nr: info.update_nr,
                is_deposit: info.is_deposit,
            },
        )
    } else if !anchors.anchors.contains_key(at) {
        VerdictView::NoFraud
    } else {
        proof_verdict(
            header,
            tx_nr,
            tx,
            info,
            verified(key, tx.proof, transfer_scalars(inputs_of(tx, info, anchors.anchors[at])))
                == Ok::<bool, Groth16Error>(true),
        )
    }
}

/// What is held against a transaction.
#[derive(Debug)]
pub enum TxVerdict {
    /// Nothing.
    NoFraud,
    /// That it is fraudulent.
    Fraud(FraudEvidence),
    /// That it is fraudulent unless the account has authorised it.
    NeedsAuthorization { evidence: FraudEvidence, eth_key: Address, fields: [B256; 5] },
}

impl View for TxVerdict {
    type V = VerdictView;

    open spec fn view(&self) -> VerdictView {
        match *self {
            TxVerdict::NoFraud => VerdictView::NoFraud,
            TxVerdict::Fraud(evidence) => VerdictView::Fraud(evidence@),
            TxVerdict::NeedsAuthorization { evidence, eth_key, fields } =>
                VerdictView::NeedsAuthorization { evidence: evidence@, eth_key, fields },
        }
    }
}

/// Holds against a transaction what follows from whether its proof is valid.
pub fn judge_proof(
    block_data: &BlockData,
    tx_nr: u64,
    tx: &ParsedTransaction,
    info: &DecodedAnchorInfo,
    proof_valid: bool,
) -> (r: TxVerdict)
    ensures
        r@ == proof_verdict(block_data@, tx_nr, *tx, *info, proof_valid),
{
    if !proof_valid {
        TxVerdict::Fraud(
            FraudEvidence::InvalidTransactionProof {
                block_data: block_data.clone(),
                tx_nr,
                anchor_block_nr: info.block_nr,
                anchor_update_nr: info.update_nr,
                is_deposit: info.is_deposit,
            },
        )
    } else if info.eth_key != Address::zero() {
        TxVerdict::NeedsAuthorization {
            evidence: FraudEvidence::MissingEthKeyAuth {
                block_data: block_data.clone(),
                tx_nr,
                eth_key: info.eth_key,
                nullifiers: [tx.nullifier0, tx.nullifier1],
                leaves: [tx.leaf0, tx.leaf1, tx.leaf2],
                anchor_block_nr: info.block_nr,
                anchor_update_nr: info.update_nr,
                is_deposit: info.is_deposit,
            },
            eth_key: info.eth_key,
            fields: [tx.nullifier0, tx.nullifier1, tx.leaf0, tx.leaf1, tx.leaf2],
        }
    } else {
        TxVerdict::NoFraud
    }
}

/// Whether an authorisation is given without the registry being asked: it is where no
/// registry is configured.
pub fn authorized_without_registry(registry_address: Address) -> (r: bool)
    ensures
        r == (registry_address == zero_address()),
{
    registry_address == Address::zero()
}

/// What each of a list of verdicts says.
pub open spec fn verdict_views(verdicts: Seq<TxVerdict>) -> Seq<VerdictView> {
    Seq::new(verdicts.len(), |i: int| verdicts[i]@)
}

/// The verdicts on the transactions of a block.
pub open spec fn block_verdicts(
    key: KeyView,
    anchors: AnchorsView,
    header: BlockView,
    transactions: Seq<ParsedTransaction>,
    infos: Seq<DecodedAnchorInfo>,
) -> Seq<VerdictView> {
    Seq::new(
        transactions.len(),
        |i: int| tx_verdict(key, anchors, header, i as u64, transactions[i], infos[i]),
    )
}

/// The evidence that a verdict comes to, once it is known whether the account has
/// authorised the transaction.
pub open spec fn concluded(verdict: VerdictView, authorized: bool) -> Option<EvidenceView> {
    match verdict {
        VerdictView::NoFraud => None,
        VerdictView::Fraud(evidence) => Some(evidence),
        VerdictView::NeedsAuthorization { evidence, .. } => if authorized {
            None
        } else {
            Some(evidence)
        },
    }
}

/// The evidence that the first `count` verdicts come to.
pub open spec fn transaction_frauds(
    verdicts: Seq<VerdictView>,
    authorized: Seq<bool>,
    count: nat,
) -> Seq<EvidenceView>
    decreases count,
{
    if count == 0 {
        Seq::empty()
    } else {
        let before = transaction_frauds(verdicts, authorized, (count - 1) as nat);
        match concluded(verdicts[count - 1], authorized[count - 1]) {
            Some(evidence) => before.push(evidence),
            None => before,
        }
    }
}

/// Checks the transactions of blocks.
#[derive(Debug)]
pub struct TransactionValidator {
    pub verifier: Groth16Verifier,
}

impl TransactionValidator {
    /// A validator of transactions.
    pub fn new(verifier: Groth16Verifier) -> (r: TransactionValidator)
        ensures
            r.verifier == verifier,
    {
        TransactionValidator { verifier }
    }

    /// Whether the proof of a transaction is valid against an anchor.
    pub fn validate_transaction_proof(
        &self,
        tx: &ParsedTransaction,
        info: &DecodedAnchorInfo,
        anchor: B256,
    ) -> (r: Result<bool, Groth16Error>)
        ensures
            r == verified(
                self.verifier.transfer_vk@,
                tx.proof,
                transfer_scalars(inputs_of(*tx, *info, anchor)),
            ),
    {
        let public_inputs = TransferPublicInputs {
            anchor,
            eth_key: info.eth_key,
            nullifier0: tx.nullifier0,
            nullifier1: tx.nullifier1,
            leaf0: tx.leaf0,
            leaf1: tx.leaf1,
            leaf2: tx.leaf2,
        };
        self.verifier.verify_transfer_proof(&tx.proof, &public_inputs)
    }

    /// Checks the anchor and the proof of a transaction. A proof whose verification fails
    /// counts as invalid.
    pub fn validate_transaction(
        &self,
        block_data: &BlockData,
        tx_nr: u64,
        tx: &ParsedTransaction,
        info: &DecodedAnchorInfo,
        anchor_lookup: &AnchorLookup,
    ) -> (r: TxVerdict)
        requires
            anchor_lookup.wf(),
        ensures
            r@ == tx_verdict(
                self.verifier.transfer_vk@,
                anchor_lookup@,
                block_data@,
                tx_nr,
                *tx,
                *info,
            ),
    {
        if !anchor_lookup.is_valid_reference(info.block_nr, info.update_nr, info.is_deposit) {
            return TxVerdict::Fraud(
                FraudEvidence::InvalidAnchorReference {
                    block_data: block_data.clone(),
                    tx_nr,
                    anchor_block_nr: info.block_nr,
                    anchor_update_nr: info.update_nr,
                    is_deposit: info.is_deposit,
                },
            );
        }
        match anchor_lookup.get(info.block_nr, info.update_nr, info.is_deposit) {
            Some(anchor) => {
                let proof_valid: bool = match self.validate_transaction_proof(tx, info, anchor) {
                    Ok(valid) => valid,
                    Err(_) => false,
                };
                judge_proof(block_data, tx_nr, tx, info, proof_valid)
            },
            None => TxVerdict::NoFraud,
        }
    }

    /// Checks the anchors and the proofs of a block's transactions, `anchor_infos` being
    /// what they say of their anchors.
    pub fn validate_block(
        &self,
        block_data: &BlockData,
        block: &ParsedBlock,
        anchor_infos: &[DecodedAnchorInfo],
        anchor_lookup: &AnchorLookup,
    ) -> (r: Vec<TxVerdict>)
        requires
            anchor_lookup.wf(),
            anchor_infos@.len() == block@.transactions.len(),
        ensures
            verdict_views(r@) == block_verdicts(
                self.verifier.transfer_vk@,
                anchor_lookup@,
                block_data@,
                block@.transactions,
                anchor_infos@,
            ),
    {
        let mut verdicts: Vec<TxVerdict> = Vec::new();
        let mut i: usize = 0;
        while i < block.transactions.len()
            invariant
                i <= block@.transactions.len(),
                anchor_lookup.wf(),
                anchor_infos@.len() == block@.transactions.len(),
                verdicts@.len() == i,
                forall|j: int|
                    0 <= j < i ==> (#[trigger] verdicts@[j])@ == tx_verdict(
                        self.verifier.transfer_vk@,
                        anchor_lookup@,
                        block_data@,
                        j as u64,
                        block@.transactions[j],
                        anchor_infos@[j],
                    ),
            decreases block@.transactions.len() - i,
        {
            verdicts.push(
                self.validate_transaction(
                    block_data,
                    i as u64,
                    &block.transactions[i],
                    &anchor_infos[i],
                    anchor_lookup,
                ),
            );
            i += 1;
        }
        assert(verdict_views(verdicts@) =~= block_verdicts(
            self.verifier.transfer_vk@,
            anchor_lookup@,
            block_data@,
            block@.transactions,
            anchor_infos@,
        ));
        verdicts
    }

    /// The evidence that verdicts come to, `authorized` saying of each transaction whether
    /// its account has authorised it.
    pub fn conclude(&self, verdicts: &[TxVerdict], authorized: &[bool]) -> (fraud: Vec<
        FraudEvidence,
    >)
        requires
            authorized@.len() == verdicts@.len(),
        ensures
            evidence_views(fraud@) == transaction_frauds(
                verdict_views(verdicts@),
                authorized@,
                verdicts@.len(),
            ),
    {
        let mut fraud: Vec<FraudEvidence> = Vec::new();
        let ghost views = verdict_views(verdicts@);
        let mut i: usize = 0;
        assert(evidence_views(fraud@) =~= transaction_frauds(views, authorized@, 0));
        while i < verdicts.len()
            invariant
                i <= verdicts@.len(),
                views == verdict_views(verdicts@),
                authorized@.len() == verdicts@.len(),
                evidence_views(fraud@) == transaction_frauds(views, authorized@, i as nat),
            decreases verdicts@.len() - i,
        {
            let ghost before = fraud@;
            assert(views[i as int] == verdicts@[i as int]@);
            match &verdicts[i] {
                TxVerdict::NoFraud => {},
                TxVerdict::Fraud(evidence) => {
                    let evidence = evidence.clone();
                    proof {
                        lemma_evidence_push(before, evidence);
                    }
                    fraud.push(evidence);
                },
                TxVerdict::NeedsAuthorization { evidence, .. } => {
                    if !authorized[i] {
                        let evidence = evidence.clone();
                        proof {
                            lemma_evidence_push(before, evidence);
                        }
                        fraud.push(evidence);
                    }
                },
            }
            i += 1;
        }
        fraud
    }
}

/// Transactions draw no evidence exactly where each is left alone, or needs to be
/// authorised and is.
pub proof fn law_no_evidence_iff_all_accepted(verdicts: Seq<VerdictView>, authorized: Seq<bool>, count: nat)
    requires
        count <= verdicts.len(),
        authorized.len() == verdicts.len(),
    ensures
        transaction_frauds(verdicts, authorized, count).len() == 0 <==> forall|i: int|
            0 <= i < count ==> (#[trigger] verdicts[i] is NoFraud || (
            verdicts[i] is NeedsAuthorization && authorized[i])),
    decreases count,
{
    if count > 0 {
        law_no_evidence_iff_all_accepted(verdicts, authorized, (count - 1) as nat);
        assert(verdicts[count - 1] is NoFraud || verdicts[count - 1] is Fraud
            || verdicts[count - 1] is NeedsAuthorization);
    }
}

/// A transaction that refers to a later block is fraudulent, whatever else it holds.
pub proof fn law_later_anchor_is_fraud(
    key: KeyView,
    anchors: AnchorsView,
    header: BlockView,
    tx_nr: u64,
    tx: ParsedTransaction,
    info: DecodedAnchorInfo,
)
    requires
        info.block_nr > anchors.current_block_nr,
    ensures
        tx_verdict(key, anchors, header, tx_nr, tx, info) == VerdictView::Fraud(
            EvidenceView::InvalidAnchorReference {
                block: header,
                tx_nr,
                anchor_block_nr: info.block_nr,
                anchor_update_nr: info.update_nr,
                is_deposit: info.is_deposit,
            },
        ),
{
}

/// The proof of a transaction is verified for what the transaction holds: for its nullifiers and
/// its leaves in their order, for the anchor that was looked up, and for the account that it
/// names, each as an element of the scalar field.
pub proof fn law_proof_is_verified_for_its_transaction(
    tx: ParsedTransaction,
    info: DecodedAnchorInfo,
    anchor: B256,
)
    ensures
        ({
            let inputs = transfer_scalars(inputs_of(tx, info, anchor));
            let order = bn254_order()@;
            &&& inputs.len() == 7
            &&& inputs[0] == be_value(tx.nullifier0@) % order
            &&& inputs[1] == be_value(tx.nullifier1@) % order
            &&& inputs[2] == be_value(tx.leaf0@) % order
            &&& inputs[3] == be_value(tx.leaf1@) % order
            &&& inputs[4] == be_value(tx.leaf2@) % order
            &&& inputs[5] == be_value(anchor@) % order
            &&& inputs[6] == be_value(info.eth_key@) % order
        }),
{
}

/// Where a transaction refers to an anchor that is known, its proof decides: it is fraudulent
/// exactly where the proof is not found valid for its words, and it is left alone exactly where
/// the proof is valid and no account has to authorise it.
pub proof fn law_proof_decides(
    key: KeyView,
    anchors: AnchorsView,
    header: BlockView,
    tx_nr: u64,
    tx: ParsedTransaction,
    info: DecodedAnchorInfo,
    inputs: Seq<nat>,
)
    requires
        info.block_nr <= anchors.current_block_nr,
        anchors.anchors.contains_key(anchor_key(info.block_nr, info.update_nr, info.is_deposit)),
        inputs.len() == 7,
        inputs[0] == be_value(tx.nullifier0@) % bn254_order()@,
        inputs[1] == be_value(tx.nullifier1@) % bn254_order()@,
        inputs[2] == be_value(tx.leaf0@) % bn254_order()@,
        inputs[3] == be_value(tx.leaf1@) % bn254_order()@,
        inputs[4] == be_value(tx.leaf2@) % bn254_order()@,
        inputs[5] == be_value(
            anchors.anchors[anchor_key(info.block_nr, info.update_nr, info.is_deposit)]@,
        ) % bn254_order()@,
        inputs[6] == be_value(info.eth_key@) % bn254_order()@,
    ensures
        ({
            let valid = verified(key, tx.proof, inputs) == Ok::<bool, Groth16Error>(true);
            let no_account = info.eth_key@ == Seq::new(20, |b: int| 0u8);
            let verdict = tx_verdict(key, anchors, header, tx_nr, tx, info);
            &&& verdict is Fraud <==> !valid
            &&& verdict is NoFraud <==> (valid && no_account)
            &&& verdict is NeedsAuthorization <==> (valid && !no_account)
            &&& verdict matches VerdictView::Fraud(evidence) ==> evidence == (
            EvidenceView::InvalidTransactionProof {
                block: header,
                tx_nr,
                anchor_block_nr: info.block_nr,
                anchor_update_nr: info.update_nr,
                is_deposit: info.is_deposit,
            })
        }),
{
    let at = anchor_key(info.block_nr, info.update_nr, info.is_deposit);
    assert(inputs =~= transfer_scalars(inputs_of(tx, info, anchors.anchors[at])));
    assert(reaches_update(anchors.anchors, info.block_nr, info.update_nr, info.is_deposit)) by {
        assert(anchors.anchors.contains_key(
            anchor_key(info.block_nr, info.update_nr, info.is_deposit),
        ));
    }
    lemma_zero_account(info.eth_key);
}

/// An account is none exactly where its bytes are zero.
proof fn lemma_zero_account(account: Address)
    ensures
        account == zero_address() <==> account@ == Seq::new(20, |b: int| 0u8),
{
    let zeros = Seq::new(20, |b: int| 0u8);
    assert(zero_address()@ =~= zeros);
    if account@ == zeros {
        assert forall|i: int| 0 <= i < 20 implies account.0[i] == zero_address().0[i] by {
            assert(account@[i] == zeros[i]);
            assert(zero_address()@[i] == zeros[i]);
        }
        assert(account.0 =~= zero_address().0);
    }
}

/// Where a transaction has to be authorised, the registry is asked for the account that the
/// transaction names, and for its two nullifiers and its three leaves, in that order. The
/// evidence that is held back names the same.
pub proof fn law_registry_is_asked_for_the_transaction(
    header: BlockView,
    tx_nr: u64,
    tx: ParsedTransaction,
    info: DecodedAnchorInfo,
)
    requires
        info.eth_key@ != Seq::new(20, |b: int| 0u8),
    ensures
        proof_verdict(header, tx_nr, tx, info, true) matches VerdictView::NeedsAuthorization {
            evidence,
            eth_key,
            fields,
        } && {
            &&& eth_key == info.eth_key
            &&& fields@[0] == tx.nullifier0
            &&& fields@[1] == tx.nullifier1
            &&& fields@[2] == tx.leaf0
            &&& fields@[3] == tx.leaf1
            &&& fields@[4] == tx.leaf2
            &&& evidence matches EvidenceView::MissingEthKeyAuth {
                block,
                tx_nr: named,
                eth_key: account,
                nullifiers,
                leaves,
                anchor_block_nr,
                anchor_update_nr,
                is_deposit,
            }
            &&& block == header
            &&& named == tx_nr
            &&& account == info.eth_key
            &&& nullifiers@ == fields@.subrange(0, 2)
            &&& leaves@ == fields@.subrange(2, 5)
            &&& anchor_block_nr == info.block_nr
            &&& anchor_update_nr == info.update_nr
            &&& is_deposit == info.is_deposit
        },
{
    lemma_zero_account(info.eth_key);
    let verdict = proof_verdict(header, tx_nr, tx, info, true);
    let fields = verdict->NeedsAuthorization_fields;
    let evidence = verdict->NeedsAuthorization_evidence;
    assert(evidence->MissingEthKeyAuth_nullifiers@ =~= fields@.subrange(0, 2));
    assert(evidence->MissingEthKeyAuth_leaves@ =~= fields@.subrange(2, 5));
}

/// A transaction whose proof is not valid is fraudulent whatever account it names, and one whose
/// proof is valid and that names no account is left alone.
pub proof fn law_proof_verdict_without_registry(
    header: BlockView,
    tx_nr: u64,
    tx: ParsedTransaction,
    info: DecodedAnchorInfo,
)
    ensures
        proof_verdict(header, tx_nr, tx, info, false) == VerdictView::Fraud(
            EvidenceView::InvalidTransactionProof {
                block: header,
                tx_nr,
                anchor_block_nr: info.block_nr,
                anchor_update_nr: info.update_nr,
                is_deposit: info.is_deposit,
            },
        ),
        proof_verdict(header, tx_nr, tx, info, true) is NoFraud <==> info.eth_key@ == Seq::new(
            20,
            |b: int| 0u8,
        ),
{
    lemma_zero_account(info.eth_key);
}

/// What can be referred to: of a block that is no later one, every update that an anchor is known
/// of and every update before such a one. Of a block that no anchor is known of, anything can
/// be. An update past all those that are known cannot be, nor anything of a later block; such
/// a reference is fraudulent, and it is the only reason to call a reference so.
pub proof fn law_reference_is_fraud_iff_impossible(
    key: KeyView,
    anchors: AnchorsView,
    header: BlockView,
    tx_nr: u64,
    tx: ParsedTransaction,
    info: DecodedAnchorInfo,
)
    ensures
        ({
            let known = anchors.anchors;
            let (b, d) = (info.block_nr, info.is_deposit);
            let impossible = b > anchors.current_block_nr || ((exists|u: u32| #[trigger]
                known.contains_key(anchor_key(b, u, d))) && forall|u: u32| #[trigger]
                known.contains_key(anchor_key(b, u, d)) ==> u < info.update_nr);
            let accused = tx_verdict(key, anchors, header, tx_nr, tx, info) matches VerdictView::Fraud(
                evidence,
            ) && evidence is InvalidAnchorReference;
            &&& accused <==> impossible
            &&& impossible <==> !valid_reference(
                anchors,
                info.block_nr,
                info.update_nr,
                info.is_deposit,
            )
            &&& accused ==> tx_verdict(key, anchors, header, tx_nr, tx, info) == VerdictView::Fraud(
                EvidenceView::InvalidAnchorReference {
                    block: header,
                    tx_nr,
                    anchor_block_nr: info.block_nr,
                    anchor_update_nr: info.update_nr,
                    is_deposit: info.is_deposit,
                },
            )
            &&& !impossible && !known.contains_key(anchor_key(b, info.update_nr, d)) ==> tx_verdict(
                key,
                anchors,
                header,
                tx_nr,
                tx,
                info,
            ) is NoFraud
        }),
{
    let (b, d) = (info.block_nr, info.is_deposit);
    let known = anchors.anchors;
    if exists|u: u32| #[trigger] known.contains_key(anchor_key(b, u, d)) {
        if !forall|u: u32| #[trigger]
            known.contains_key(anchor_key(b, u, d)) ==> u < info.update_nr {
            let m = choose|m: u32| #[trigger]
                known.contains_key(anchor_key(b, m, d)) && m >= info.update_nr;
            assert(known.contains_key(anchor_key(b, m, d)));
        }
    }
}

/// Each transaction of a block is judged by itself: by its own words, by what it says of its
/// anchor, and under its own number.
pub proof fn law_each_transaction_is_judged(
    key: KeyView,
    anchors: AnchorsView,
    header: BlockView,
    transactions: Seq<ParsedTransaction>,
    infos: Seq<DecodedAnchorInfo>,
    t: int,
)
    requires
        0 <= t < transactions.len(),
    ensures
        block_verdicts(key, anchors, header, transactions, infos).len() == transactions.len(),
        block_verdicts(key, anchors, header, transactions, infos)[t] == tx_verdict(
            key,
            anchors,
            header,
            t as u64,
            transactions[t],
            infos[t],
        ),
{
}

/// Every verdict of fraud comes to evidence, and so does every authorisation that was needed and
/// not given.
pub proof fn law_every_fraud_is_reported(
    verdicts: Seq<VerdictView>,
    authorized: Seq<bool>,
    count: nat,
    t: int,
)
    requires
        0 <= t < count,
        count <= verdicts.len(),
    ensures
        verdicts[t] matches VerdictView::Fraud(evidence) ==> transaction_frauds(
            verdicts,
            authorized,
            count,
        ).contains(evidence),
        verdicts[t] matches VerdictView::NeedsAuthorization { evidence, .. } ==> !authorized[t]
            ==> transaction_frauds(verdicts, authorized, count).contains(evidence),
    decreases count,
{
    let all = transaction_frauds(verdicts, authorized, count);
    let before = transaction_frauds(verdicts, authorized, (count - 1) as nat);
    if t < count - 1 {
        law_every_fraud_is_reported(verdicts, authorized, (count - 1) as nat, t);
        assert forall|e: EvidenceView| before.contains(e) implies #[trigger] all.contains(e) by {
            let j = choose|j: int| 0 <= j < before.len() && before[j] == e;
            assert(all[j] == e);
        }
    } else {
        if all.len() > before.len() {
            assert(all[before.len() as int] == all.last());
        }
    }
}

/// Evidence against transactions comes from a verdict of fraud, or from an authorisation that was
/// needed and not given, and from nothing else.
pub proof fn law_transaction_evidence_has_a_verdict(
    verdicts: Seq<VerdictView>,
    authorized: Seq<bool>,
    count: nat,
    j: int,
) -> (t: int)
    requires
        count <= verdicts.len(),
        0 <= j < transaction_frauds(verdicts, authorized, count).len(),
    ensures
        0 <= t < count,
        ({
            let evidence = transaction_frauds(verdicts, authorized, count)[j];
            ||| verdicts[t] == VerdictView::Fraud(evidence)
            ||| (verdicts[t] is NeedsAuthorization && verdicts[t]->NeedsAuthorization_evidence
                == evidence && !authorized[t])
        }),
    decreases count,
{
    let before = transaction_frauds(verdicts, authorized, (count - 1) as nat);
    if j < before.len() {
        law_transaction_evidence_has_a_verdict(verdicts, authorized, (count - 1) as nat, j)
    } else {
        count - 1
    }
}

/// After a list of anchors was entered, each is known under its block, update and kind as the
/// last entry of the list says, and every other one is as it was before.
pub proof fn law_entered_anchors_are_known(
    anchors: Map<u128, B256>,
    list: Seq<(u32, u32, bool, B256)>,
    at: (u32, u32, bool),
)
    ensures
        ({
            let before = anchor_key(at.0, at.1, at.2);
            let after = with_anchors(anchors, list);
            &&& forall|i: int|
                0 <= i < list.len() && (list[i].0, list[i].1, list[i].2) == at && (forall|j: int|
                    i < j < list.len() ==> (#[trigger] list[j].0, list[j].1, list[j].2) != at)
                    ==> after.contains_key(before) && after[before] == (#[trigger] list[i]).3
            &&& (forall|i: int|
                0 <= i < list.len() ==> (#[trigger] list[i].0, list[i].1, list[i].2) != at) ==> (
            after.contains_key(before) <==> anchors.contains_key(before)) && (anchors.contains_key(
                before,
            ) ==> after[before] == anchors[before])
        }),
    decreases list.len(),
{
    if list.len() > 0 {
        let front = list.drop_last();
        let last = list.last();
        law_entered_anchors_are_known(anchors, front, at);
        lemma_anchor_key((last.0, last.1, last.2), at);
        let key = anchor_key(at.0, at.1, at.2);
        let after = with_anchors(anchors, list);
        assert forall|i: int|
            0 <= i < list.len() && (list[i].0, list[i].1, list[i].2) == at && (forall|j: int|
                i < j < list.len() ==> (#[trigger] list[j].0, list[j].1, list[j].2)
                    != at) implies after.contains_key(key) && after[key] == (#[trigger] list[i]).3 by {
            if i < front.len() {
                assert(front[i] == list[i]);
                let n = list.len() - 1;
                assert((list[n].0, list[n].1, list[n].2) != at);
                assert forall|j: int| i < j < front.len() implies (
                    #[trigger] front[j].0,
                    front[j].1,
                    front[j].2,
                ) != at by {
                    assert((list[j].0, list[j].1, list[j].2) != at);
                }
            }
        }
        if forall|i: int|
            0 <= i < list.len() ==> (#[trigger] list[i].0, list[i].1, list[i].2) != at {
            let n = list.len() - 1;
            assert((list[n].0, list[n].1, list[n].2) != at);
            assert forall|i: int| 0 <= i < front.len() implies (
                #[trigger] front[i].0,
                front[i].1,
                front[i].2,
            ) != at by {
                assert((list[i].0, list[i].1, list[i].2) != at);
            }
        }
    }
}

/// The last update of a block is the largest that an anchor is known of: there is one exactly where
/// an anchor is known, it is known itself, and no other answer is right.
pub proof fn law_last_update_is_the_largest_known(
    anchors: Map<u128, B256>,
    block_nr: u32,
    is_deposit: bool,
    last: Option<u32>,
    other: Option<u32>,
    u: u32,
)
    requires
        is_last_update(anchors, block_nr, is_deposit, last),
    ensures
        anchors.contains_key(anchor_key(block_nr, u, is_deposit)) ==> last is Some && u <= last->0,
        last is Some ==> anchors.contains_key(anchor_key(block_nr, last->0, is_deposit)),
        is_last_update(anchors, block_nr, is_deposit, other) ==> other == last,
{
    if is_last_update(anchors, block_nr, is_deposit, other) {
        match (last, other) {
            (Some(a), Some(b)) => {
                assert(anchors.contains_key(anchor_key(block_nr, a, is_deposit)));
                assert(anchors.contains_key(anchor_key(block_nr, b, is_deposit)));
            },
            (Some(a), None) => {
                assert(anchors.contains_key(anchor_key(block_nr, a, is_deposit)));
            },
            (None, Some(b)) => {
                assert(anchors.contains_key(anchor_key(block_nr, b, is_deposit)));
            },
            (None, None) => {},
        }
    }
}

/// A rollback forgets the anchors of the block that it goes back to and of all later ones, and
/// leaves those of earlier blocks as they are.
pub proof fn law_rollback_leaves_earlier_anchors(
    anchors: Map<u128, B256>,
    from_block: u32,
    block_nr: u32,
    update_nr: u32,
    is_deposit: bool,
)
    ensures
        ({
            let key = anchor_key(block_nr, update_nr, is_deposit);
            let after = anchors_before(anchors, from_block);
            &&& block_nr >= from_block ==> !after.contains_key(key)
            &&& block_nr < from_block ==> (after.contains_key(key) <==> anchors.contains_key(key))
            &&& block_nr < from_block && anchors.contains_key(key) ==> after[key] == anchors[key]
        }),
{
    lemma_anchor_key((block_nr, update_nr, is_deposit), (block_nr, update_nr, is_deposit));
}

/// The transaction that evidence against a transaction names.
pub open spec fn accused_transaction(evidence: EvidenceView) -> Option<u64> {
    match evidence {
        EvidenceView::InvalidTransactionProof { tx_nr, .. } => Some(tx_nr),
        EvidenceView::InvalidAnchorReference { tx_nr, .. } => Some(tx_nr),
        EvidenceView::MissingEthKeyAuth { tx_nr, .. } => Some(tx_nr),
        _ => None,
    }
}

/// The evidence against the transactions of a block comes in their order, each transaction once,
/// and names transactions of the block.
pub proof fn law_transaction_evidence_in_order(
    key: KeyView,
    anchors: AnchorsView,
    header: BlockView,
    transactions: Seq<ParsedTransaction>,
    infos: Seq<DecodedAnchorInfo>,
    authorized: Seq<bool>,
    count: nat,
    i: int,
)
    requires
        count <= transactions.len() <= u64::MAX,
        0 <= i < transaction_frauds(
            block_verdicts(key, anchors, header, transactions, infos),
            authorized,
            count,
        ).len(),
    ensures
        ({
            let found = transaction_frauds(
                block_verdicts(key, anchors, header, transactions, infos),
                authorized,
                count,
            );
            &&& accused_transaction(found[i]) matches Some(t)
            &&& t < count
            &&& forall|j: int|
                i < j < found.len() ==> (accused_transaction(#[trigger] found[j]) matches Some(u) && t
                    < u)
        }),
    decreases count,
{
    let verdicts = block_verdicts(key, anchors, header, transactions, infos);
    let before = transaction_frauds(verdicts, authorized, (count - 1) as nat);
    let found = transaction_frauds(verdicts, authorized, count);
    assert(verdicts[count - 1] == tx_verdict(
        key,
        anchors,
        header,
        (count - 1) as u64,
        transactions[count - 1],
        infos[count - 1],
    ));
    if i < before.len() {
        law_transaction_evidence_in_order(
            key,
            anchors,
            header,
            transactions,
            infos,
            authorized,
            (count - 1) as nat,
            i,
        );
        assert forall|j: int| i < j < found.len() implies (accused_transaction(
            #[trigger] found[j],
        ) matches Some(u) && accused_transaction(found[i])->0 < u) by {
            if j < before.len() {
                assert(found[j] == before[j]);
            }
        }
    }
}

/// What a verdict says is what it holds, part by part, and what a list of them says is what each
/// says, in its order.
pub proof fn law_verdict_says_what_it_holds(verdict: TxVerdict, verdicts: Seq<TxVerdict>, i: int)
    ensures
        verdict is NoFraud <==> verdict@ is NoFraud,
        verdict matches TxVerdict::Fraud(evidence) ==> verdict@ == VerdictView::Fraud(evidence@),
        verdict matches TxVerdict::NeedsAuthorization { evidence, eth_key, fields } ==> {
            &&& verdict@ matches VerdictView::NeedsAuthorization {
                evidence: held,
                eth_key: account,
                fields: asked,
            }
            &&& held == evidence@
            &&& account == eth_key
            &&& asked == fields
        },
        verdict_views(verdicts).len() == verdicts.len(),
        0 <= i < verdicts.len() ==> verdict_views(verdicts)[i] == verdicts[i]@,
{
}

} // verus!
