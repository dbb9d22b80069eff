//! The order-book application that the replicas run: the orders and
//! validator-set changes waiting for the next block, how a block's content
//! is laid out and hashed, and how a received block is checked and its
//! validator-set changes read back.
use vstd::prelude::*;
use std::collections::HashSet;
use crate::codec::{
    base64_bytes, base64_decode, base64_encode, base64_text, block_data_bytes, borsh_block_data,
    byte_views, sha256, sha256_digest, verifying_key_accepts, verifying_key_is_valid,
};
use crate::orders::Order;
use crate::sort::{is_byte_stable_sort, key_bytes, stable_sort_by_bytes};

verus! {

broadcast use vstd::std_specs::hash::group_hash_axioms;

/// The pending orders and seen order ids after a submission: an order whose
/// id was seen before is ignored; a new one is queued and its id recorded.
pub open spec fn after_submission(pending: Seq<Order>, seen: Set<u128>, o: Order) -> (Seq<Order>, Set<u128>) {
    if seen.contains(o.id) {
        (pending, seen)
    } else {
        (pending.push(o), seen.insert(o.id))
    }
}

/// Submitting an order a second time changes nothing: each order id is
/// accepted at most once.
pub proof fn law_resubmission_is_ignored(pending: Seq<Order>, seen: Set<u128>, o: Order)
    ensures
        ({
            let (p1, s1) = after_submission(pending, seen, o);
            after_submission(p1, s1, o) == (p1, s1)
        }),
{
}

/// Each order id is accepted once: a submission records the order's id
/// among the seen ids and nothing else; the pending orders gain the order,
/// at the end, exactly when its id was not seen before, and are otherwise
/// unchanged.
pub proof fn law_unseen_order_is_queued(pending: Seq<Order>, seen: Set<u128>, o: Order)
    ensures
        ({
            let (p1, s1) = after_submission(pending, seen, o);
            &&& s1.contains(o.id)
            &&& forall|x: u128| x != o.id ==> (#[trigger] s1.contains(x) == seen.contains(x))
            &&& p1.len() == pending.len() + if seen.contains(o.id) {
                0int
            } else {
                1int
            }
            &&& p1.take(pending.len() as int) == pending
            &&& !seen.contains(o.id) ==> p1.last() == o
        }),
{
    let (p1, s1) = after_submission(pending, seen, o);
    if !seen.contains(o.id) {
        assert(p1.take(pending.len() as int) =~= pending);
    } else {
        assert(p1.take(pending.len() as int) =~= pending);
    }
}

/// The application state of one replica: orders and validator-set changes
/// waiting for the next block this replica proposes, and the ids of all
/// orders it has accepted.
pub struct CounterApp {
    orders: Vec<Order>,
    vs_inserts: Vec<([u8; 32], u64)>,
    vs_deletes: Vec<[u8; 32]>,
    seen_ids: HashSet<u128>,
}

/// What a replica takes out of its application state to propose a block.
pub struct PendingBlock {
    pub orders: Vec<Order>,
    pub validator_inserts: Vec<([u8; 32], u64)>,
    pub validator_deletes: Vec<[u8; 32]>,
}

impl CounterApp {
    /// Orders waiting for the next block, in order of arrival.
    pub closed spec fn pending_orders(&self) -> Seq<Order> {
        self.orders@
    }

    /// Ids of every order accepted so far.
    pub closed spec fn seen_ids(&self) -> Set<u128> {
        self.seen_ids@
    }

    /// Validators (key, power) to add with the next block.
    pub closed spec fn validator_inserts(&self) -> Seq<([u8; 32], u64)> {
        self.vs_inserts@
    }

    /// Validators (key) to remove with the next block.
    pub closed spec fn validator_deletes(&self) -> Seq<[u8; 32]> {
        self.vs_deletes@
    }

    /// A replica's state before any order or validator change.
    pub fn new() -> (app: Self)
        ensures
            app.pending_orders() == Seq::<Order>::empty(),
            app.seen_ids() == Set::<u128>::empty(),
            app.validator_inserts() == Seq::<([u8; 32], u64)>::empty(),
            app.validator_deletes() == Seq::<[u8; 32]>::empty(),
    {
        CounterApp {
            orders: Vec::new(),
            vs_inserts: Vec::new(),
            vs_deletes: Vec::new(),
            seen_ids: HashSet::new(),
        }
    }

    /// Accepts an order for the next block unless an order with its id was
    /// accepted before.
    pub fn submit_order(&mut self, o: Order)
        ensures
            (final(self).pending_orders(), final(self).seen_ids()) == after_submission(
                old(self).pending_orders(),
                old(self).seen_ids(),
                o,
            ),
            final(self).validator_inserts() == old(self).validator_inserts(),
            final(self).validator_deletes() == old(self).validator_deletes(),
    {
        if self.seen_ids.insert(o.id) {
            self.orders.push(o);
        }
    }

    /// Schedules adding the validator `vk` with `power` in the next block.
    pub fn add_validator(&mut self, vk: [u8; 32], power: u64)
        ensures
            final(self).validator_inserts() == old(self).validator_inserts().push((vk, power)),
            final(self).validator_deletes() == old(self).validator_deletes(),
            final(self).pending_orders() == old(self).pending_orders(),
            final(self).seen_ids() == old(self).seen_ids(),
    {
        self.vs_inserts.push((vk, power));
    }

    /// Schedules removing the validator `vk` in the next block.
    pub fn remove_validator(&mut self, vk: [u8; 32])
        ensures
            final(self).validator_deletes() == old(self).validator_deletes().push(vk),
            final(self).validator_inserts() == old(self).validator_inserts(),
            final(self).pending_orders() == old(self).pending_orders(),
            final(self).seen_ids() == old(self).seen_ids(),
    {
        self.vs_deletes.push(vk);
    }

    /// Takes out everything waiting for the next block, leaving nothing
    /// waiting; the seen ids stay.
    pub fn take_pending(&mut self) -> (taken: PendingBlock)
        ensures
            taken.orders@ == old(self).pending_orders(),
            taken.validator_inserts@ == old(self).validator_inserts(),
            taken.validator_deletes@ == old(self).validator_deletes(),
            final(self).pending_orders() == Seq::<Order>::empty(),
            final(self).validator_inserts() == Seq::<([u8; 32], u64)>::empty(),
            final(self).validator_deletes() == Seq::<[u8; 32]>::empty(),
            final(self).seen_ids() == old(self).seen_ids(),
    {
        let mut orders: Vec<Order> = Vec::new();
        let mut inserts: Vec<([u8; 32], u64)> = Vec::new();
        let mut deletes: Vec<[u8; 32]> = Vec::new();
        std::mem::swap(&mut orders, &mut self.orders);
        std::mem::swap(&mut inserts, &mut self.vs_inserts);
        std::mem::swap(&mut deletes, &mut self.vs_deletes);
        PendingBlock { orders, validator_inserts: inserts, validator_deletes: deletes }
    }
}

/// Puts a block's orders in a fixed order: stably by their encodings
/// (`encodings[i]` encodes `orders[i]`), compared as byte strings.
pub fn sort_for_block(orders: Vec<Order>, encodings: Vec<Vec<u8>>) -> (sorted: Vec<Order>)
    requires
        orders.len() == encodings.len(),
    ensures
        is_byte_stable_sort(key_bytes(encodings@), orders@, sorted@),
{
    stable_sort_by_bytes(encodings, orders)
}

/// The validator-set changes of a block as its payload carries them: each
/// key in base64.
pub struct EncodedValidatorUpdates {
    pub inserts: Vec<(String, u64)>,
    pub deletes: Vec<String>,
}

/// Encodes the keys of a block's validator-set changes in base64 (standard
/// alphabet, no padding), keeping their order and powers.
pub fn encode_validator_updates(inserts: &Vec<([u8; 32], u64)>, deletes: &Vec<[u8; 32]>) -> (encoded:
    EncodedValidatorUpdates)
    ensures
        encoded.inserts.len() == inserts.len(),
        encoded.deletes.len() == deletes.len(),
        forall|i: int|
            0 <= i < inserts.len() ==> (#[trigger] encoded.inserts@[i]).0@ == base64_text(
                inserts@[i].0@,
            ) && encoded.inserts@[i].1 == inserts@[i].1 && base64_bytes(encoded.inserts@[i].0@)
                == Some(inserts@[i].0@),
        forall|i: int|
            0 <= i < deletes.len() ==> (#[trigger] encoded.deletes@[i])@ == base64_text(
                deletes@[i]@,
            ) && base64_bytes(encoded.deletes@[i]@) == Some(deletes@[i]@),
{
    let mut ins: Vec<(String, u64)> = Vec::new();
    let mut i: usize = 0;
    while i < inserts.len()
        invariant
            i <= inserts.len(),
            ins.len() == i,
            forall|j: int|
                0 <= j < i ==> (#[trigger] ins@[j]).0@ == base64_text(inserts@[j].0@)
                    && ins@[j].1 == inserts@[j].1 && base64_bytes(ins@[j].0@) == Some(
                    inserts@[j].0@,
                ),
        decreases inserts.len() - i,
    {
        let text = base64_encode(inserts[i].0.as_slice());
        ins.push((text, inserts[i].1));
        i = i + 1;
    }
    let mut dels: Vec<String> = Vec::new();
    let mut i: usize = 0;
    while i < deletes.len()
        invariant
            i <= deletes.len(),
            dels.len() == i,
            forall|j: int|
                0 <= j < i ==> (#[trigger] dels@[j])@ == base64_text(deletes@[j]@) && base64_bytes(
                    dels@[j]@,
                ) == Some(deletes@[j]@),
        decreases deletes.len() - i,
    {
        dels.push(base64_encode(deletes[i].as_slice()));
        i = i + 1;
    }
    EncodedValidatorUpdates { inserts: ins, deletes: dels }
}

/// Block data fits the encoding: fewer than 2^32 datums, each shorter than
/// 2^32 bytes.
pub open spec fn fits_block_data(payloads: Seq<Vec<u8>>) -> bool {
    &&& payloads.len() <= u32::MAX
    &&& forall|i: int| 0 <= i < payloads.len() ==> (#[trigger] payloads[i]).len() <= u32::MAX
}

/// The hash of block data: SHA-256 of its Borsh encoding.
pub open spec fn data_hash(payloads: Seq<Seq<u8>>) -> Seq<u8> {
    sha256_digest(borsh_block_data(payloads))
}

/// The hash a block carries for the data made of the datums `payloads`.
pub fn block_data_hash(payloads: &Vec<Vec<u8>>) -> (hash: [u8; 32])
    requires
        fits_block_data(payloads@),
    ensures
        hash@ == data_hash(byte_views(payloads@)),
{
    let encoded = block_data_bytes(payloads);
    sha256(encoded.as_slice())
}

/// How a received block's data compares with the hash its header carries.
pub enum BlockCheck {
    /// The block carries no data; it is taken on its hash alone.
    NoData,
    /// The data hashes to the header's hash.
    Matches,
    /// The data does not hash to the header's hash; the block is invalid.
    Mismatch,
}

/// The outcome of checking block data against a header's data hash.
pub open spec fn block_verdict(payloads: Seq<Seq<u8>>, header_hash: Seq<u8>) -> BlockCheck {
    if payloads.len() == 0 {
        BlockCheck::NoData
    } else if data_hash(payloads) == header_hash {
        BlockCheck::Matches
    } else {
        BlockCheck::Mismatch
    }
}

/// Checks a received block's data against its header's data hash.
pub fn check_block_data(payloads: &Vec<Vec<u8>>, header_hash: &[u8; 32]) -> (check: BlockCheck)
    requires
        fits_block_data(payloads@),
    ensures
        check == block_verdict(byte_views(payloads@), header_hash@),
{
    if payloads.len() == 0 {
        assert(byte_views(payloads@).len() == 0);
        return BlockCheck::NoData;
    }
    let computed = block_data_hash(payloads);
    let mut i: usize = 0;
    while i < 32
        invariant
            i <= 32,
            computed@.len() == 32,
            header_hash@.len() == 32,
            payloads.len() > 0,
            computed@ == data_hash(byte_views(payloads@)),
            forall|j: int| 0 <= j < i ==> computed@[j] == header_hash@[j],
        decreases 32 - i,
    {
        if computed[i] != header_hash[i] {
            assert(computed@[i as int] != header_hash@[i as int]);
            assert(computed@ != header_hash@);
            assert(byte_views(payloads@).len() == payloads.len());
            return BlockCheck::Mismatch;
        }
        i = i + 1;
    }
    assert(computed@ =~= header_hash@);
    assert(byte_views(payloads@).len() == payloads.len());
    BlockCheck::Matches
}

/// A block whose header carries the hash of its own (non-empty) data
/// passes the check: what a leader proposes with `block_data_hash`, its
/// peers accept.
pub proof fn law_proposed_block_matches(payloads: Seq<Seq<u8>>)
    requires
        payloads.len() > 0,
    ensures
        block_verdict(payloads, data_hash(payloads)) == BlockCheck::Matches,
{
}

/// The 32 zero bytes that stand in for a key of the wrong length.
pub open spec fn zero_key() -> Seq<u8> {
    Seq::new(32, |i: int| 0u8)
}

/// The 32 key bytes made of decoded bytes: the bytes themselves when there
/// are exactly 32, else all zeros.
pub open spec fn key_from_decoded(b: Seq<u8>) -> Seq<u8> {
    if b.len() == 32 {
        b
    } else {
        zero_key()
    }
}

/// The key that a base64 text of a block payload stands for: decoded,
/// made 32 bytes long, and accepted as an ed25519 verifying key; `None`
/// where decoding or the key fails.
pub open spec fn decoded_key(text: Seq<char>) -> Option<Seq<u8>> {
    match base64_bytes(text) {
        Some(b) => if verifying_key_accepts(key_from_decoded(b)) {
            Some(key_from_decoded(b))
        } else {
            None
        },
        None => None,
    }
}

/// The validator additions that a payload's (key text, power) pairs give:
/// those whose key decodes, in order.
pub open spec fn decoded_inserts(list: Seq<(Seq<char>, u64)>) -> Seq<(Seq<u8>, u64)>
    decreases list.len(),
{
    if list.len() == 0 {
        Seq::empty()
    } else {
        let rest = decoded_inserts(list.drop_last());
        match decoded_key(list.last().0) {
            Some(k) => rest.push((k, list.last().1)),
            None => rest,
        }
    }
}

/// The validator removals that a payload's key texts give: those that
/// decode, in order.
pub open spec fn decoded_deletes(list: Seq<Seq<char>>) -> Seq<Seq<u8>>
    decreases list.len(),
{
    if list.len() == 0 {
        Seq::empty()
    } else {
        let rest = decoded_deletes(list.drop_last());
        match decoded_key(list.last()) {
            Some(k) => rest.push(k),
            None => rest,
        }
    }
}

/// Validator-set changes read back from a block payload.
pub struct ValidatorUpdates {
    pub inserts: Vec<([u8; 32], u64)>,
    pub deletes: Vec<[u8; 32]>,
}

/// The views of (key, power) pairs.
pub open spec fn insert_views(list: Seq<([u8; 32], u64)>) -> Seq<(Seq<u8>, u64)> {
    list.map_values(|e: ([u8; 32], u64)| (e.0@, e.1))
}

/// The views of keys.
pub open spec fn key_views(list: Seq<[u8; 32]>) -> Seq<Seq<u8>> {
    list.map_values(|k: [u8; 32]| k@)
}

/// The views of (text, power) pairs.
pub open spec fn text_insert_views(list: Seq<(String, u64)>) -> Seq<(Seq<char>, u64)> {
    list.map_values(|e: (String, u64)| (e.0@, e.1))
}

/// The views of texts.
pub open spec fn text_views(list: Seq<String>) -> Seq<Seq<char>> {
    list.map_values(|s: String| s@)
}

/// The 32 key bytes made of decoded bytes, as `key_from_decoded` says.
pub(crate) fn key_array(b: &[u8]) -> (key: [u8; 32])
    ensures
        key@ == key_from_decoded(b@),
{
    let mut key = [0u8; 32];
    assert(key@ =~= zero_key());
    if b.len() == 32 {
        let mut i: usize = 0;
        while i < 32
            invariant
                i <= 32,
                b@.len() == 32,
                key@.len() == 32,
                forall|j: int| 0 <= j < i ==> key@[j] == b@[j],
            decreases 32 - i,
        {
            key[i] = b[i];
            i = i + 1;
        }
        assert(key@ =~= b@);
    }
    key
}

/// The key that a base64 text stands for, as `decoded_key` says.
fn decode_key(text: &str) -> (key: Option<[u8; 32]>)
    ensures
        match key {
            Some(k) => decoded_key(text@) == Some(k@),
            None => decoded_key(text@) is None,
        },
{
    match base64_decode(text) {
        Some(bytes) => {
            let key = key_array(bytes.as_slice());
            if verifying_key_is_valid(&key) {
                Some(key)
            } else {
                None
            }
        },
        None => None,
    }
}

/// Reads back the validator-set changes of a block payload: keys that do
/// not decode to a valid verifying key are skipped, and a decoded key of
/// the wrong length stands as the all-zero key.
pub fn decode_validator_updates(inserts: Vec<(String, u64)>, deletes: Vec<String>) -> (updates:
    ValidatorUpdates)
    ensures
        insert_views(updates.inserts@) == decoded_inserts(text_insert_views(inserts@)),
        key_views(updates.deletes@) == decoded_deletes(text_views(deletes@)),
{
    let mut ins: Vec<([u8; 32], u64)> = Vec::new();
    let mut i: usize = 0;
    while i < inserts.len()
        invariant
            i <= inserts.len(),
            insert_views(ins@) == decoded_inserts(text_insert_views(inserts@.take(i as int))),
        decreases inserts.len() - i,
    {
        let ghost before = ins@;
        assert(text_insert_views(inserts@.take(i + 1)).drop_last() =~= text_insert_views(
            inserts@.take(i as int),
        ));
        match decode_key(inserts[i].0.as_str()) {
            Some(k) => {
                ins.push((k, inserts[i].1));
                assert(insert_views(ins@) =~= insert_views(before).push((k@, inserts@[i as int].1)));
            },
            None => {},
        }
        i = i + 1;
    }
    assert(inserts@.take(inserts.len() as int) =~= inserts@);
    let mut dels: Vec<[u8; 32]> = Vec::new();
    let mut i: usize = 0;
    while i < deletes.len()
        invariant
            i <= deletes.len(),
            key_views(dels@) == decoded_deletes(text_views(deletes@.take(i as int))),
        decreases deletes.len() - i,
    {
        let ghost before = dels@;
        assert(text_views(deletes@.take(i + 1)).drop_last() =~= text_views(
            deletes@.take(i as int),
        ));
        match decode_key(deletes[i].as_str()) {
            Some(k) => {
                dels.push(k);
                assert(key_views(dels@) =~= key_views(before).push(k@));
            },
            None => {},
        }
        i = i + 1;
    }
    assert(deletes@.take(deletes.len() as int) =~= deletes@);
    ValidatorUpdates { inserts: ins, deletes: dels }
}

/// Validator additions survive the trip through a block payload: when each
/// key text decodes to its 32-byte key and every key is a valid verifying
/// key, reading the texts back gives the additions unchanged.
pub proof fn law_validator_inserts_roundtrip(
    inserts: Seq<(Seq<u8>, u64)>,
    texts: Seq<(Seq<char>, u64)>,
)
    requires
        texts.len() == inserts.len(),
        forall|i: int|
            0 <= i < inserts.len() ==> base64_bytes(#[trigger] texts[i].0) == Some(inserts[i].0)
                && texts[i].1 == inserts[i].1 && inserts[i].0.len() == 32 && verifying_key_accepts(
                inserts[i].0,
            ),
    ensures
        decoded_inserts(texts) == inserts,
    decreases inserts.len(),
{
    if inserts.len() > 0 {
        let n = inserts.len() - 1;
        assert forall|i: int| 0 <= i < n implies base64_bytes(#[trigger] texts.drop_last()[i].0)
            == Some(inserts.drop_last()[i].0) && texts.drop_last()[i].1 == inserts.drop_last()[i].1
            && inserts.drop_last()[i].0.len() == 32 && verifying_key_accepts(
            inserts.drop_last()[i].0,
        ) by {
            assert(texts.drop_last()[i] == texts[i]);
            assert(inserts.drop_last()[i] == inserts[i]);
        }
        law_validator_inserts_roundtrip(inserts.drop_last(), texts.drop_last());
        assert(texts.last() == texts[n]);
        assert(base64_bytes(texts[n].0) == Some(inserts[n].0));
        assert(inserts =~= inserts.drop_last().push(inserts[n]));
    }
}

/// Validator removals survive the trip through a block payload, as
/// additions do.
pub proof fn law_validator_deletes_roundtrip(deletes: Seq<Seq<u8>>, texts: Seq<Seq<char>>)
    requires
        texts.len() == deletes.len(),
        forall|i: int|
            0 <= i < deletes.len() ==> base64_bytes(#[trigger] texts[i]) == Some(deletes[i])
                && deletes[i].len() == 32 && verifying_key_accepts(deletes[i]),
    ensures
        decoded_deletes(texts) == deletes,
    decreases deletes.len(),
{
    if deletes.len() > 0 {
        let n = deletes.len() - 1;
        assert forall|i: int| 0 <= i < n implies base64_bytes(#[trigger] texts.drop_last()[i])
            == Some(deletes.drop_last()[i]) && deletes.drop_last()[i].len() == 32
            && verifying_key_accepts(deletes.drop_last()[i]) by {
            assert(texts.drop_last()[i] == texts[i]);
            assert(deletes.drop_last()[i] == deletes[i]);
        }
        law_validator_deletes_roundtrip(deletes.drop_last(), texts.drop_last());
        assert(texts.last() == texts[n]);
        assert(deletes =~= deletes.drop_last().push(deletes[n]));
    }
}

} // verus!
