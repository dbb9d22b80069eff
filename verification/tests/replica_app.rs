use base64::Engine;
use borsh::BorshSerialize;
use hotstuff_rs::types::crypto_primitives::{CryptoHasher, Digest};
use hotstuff_rs::types::data_types::{Data, Datum};
use hs_demo::app::{
    block_data_hash, check_block_data, decode_validator_updates, encode_validator_updates,
    sort_for_block, BlockCheck, CounterApp,
};
use hs_demo::orders::Order;

fn order(id: u128, symbol: &str) -> Order {
    Order { id, symbol: symbol.to_string(), price_bits: 1.0f64.to_bits(), side: "buy".to_string(), position: 1 }
}

fn vk_of(secret: &[u8; 32]) -> [u8; 32] {
    hotstuff_rs::types::crypto_primitives::SigningKey::from_bytes(secret).verifying_key().to_bytes()
}

fn key_ok(key: &[u8; 32]) -> bool {
    hotstuff_rs::types::crypto_primitives::VerifyingKey::from_bytes(key).is_ok()
}

fn b64(bytes: &[u8]) -> String {
    base64::engine::general_purpose::STANDARD_NO_PAD.encode(bytes)
}

#[test]
fn a_resubmitted_order_is_ignored() {
    let mut app = CounterApp::new();
    app.submit_order(order(7, "A"));
    app.submit_order(order(8, "B"));
    app.submit_order(order(7, "C"));
    let pending = app.take_pending();
    assert_eq!(pending.orders.iter().map(|o| o.id).collect::<Vec<_>>(), vec![7, 8]);
    app.submit_order(order(7, "D"));
    assert!(app.take_pending().orders.is_empty());
}

#[test]
fn take_pending_empties_the_queue() {
    let mut app = CounterApp::new();
    app.add_validator([1u8; 32], 3);
    app.remove_validator([2u8; 32]);
    app.submit_order(order(1, "A"));
    let p = app.take_pending();
    assert_eq!(p.orders.len(), 1);
    assert_eq!(p.validator_inserts, vec![([1u8; 32], 3)]);
    assert_eq!(p.validator_deletes, vec![[2u8; 32]]);
    let q = app.take_pending();
    assert!(q.orders.is_empty() && q.validator_inserts.is_empty() && q.validator_deletes.is_empty());
}

#[test]
fn block_orders_sort_by_their_encodings() {
    let orders = vec![order(1, "A"), order(2, "B"), order(3, "C"), order(4, "D")];
    let encodings = vec![b"b".to_vec(), b"a".to_vec(), b"ab".to_vec(), b"a".to_vec()];
    let sorted = sort_for_block(orders, encodings);
    assert_eq!(sorted.iter().map(|o| o.id).collect::<Vec<_>>(), vec![2, 4, 3, 1]);
}

#[test]
fn block_data_is_borsh_encoded_then_hashed() {
    let payloads = vec![vec![1u8, 2], vec![]];
    let data = Data::new(payloads.iter().map(|p| Datum::new(p.clone())).collect());
    let mut hasher = CryptoHasher::new();
    hasher.update(&data.try_to_vec().unwrap());
    let expected: [u8; 32] = hasher.finalize().into();
    assert_eq!(block_data_hash(&payloads), expected);
}

#[test]
fn block_check_outcomes() {
    let payloads = vec![b"payload".to_vec()];
    let hash = block_data_hash(&payloads);
    assert!(matches!(check_block_data(&payloads, &hash), BlockCheck::Matches));
    let mut wrong = hash;
    wrong[31] ^= 1;
    assert!(matches!(check_block_data(&payloads, &wrong), BlockCheck::Mismatch));
    assert!(matches!(check_block_data(&Vec::new(), &hash), BlockCheck::NoData));
}

#[test]
fn validator_keys_travel_as_unpadded_base64() {
    let k = vk_of(&[5u8; 32]);
    let enc = encode_validator_updates(&vec![(k, 1u64)], &vec![k]);
    assert_eq!(enc.inserts[0].0, b64(&k));
    assert_eq!(enc.inserts[0].0.len(), 43);
    assert!(!enc.inserts[0].0.ends_with('='));
    assert_eq!(enc.deletes, vec![enc.inserts[0].0.clone()]);
    let padded = format!("{}=", enc.inserts[0].0);
    let dec = decode_validator_updates(vec![(padded, 1u64)], vec![enc.deletes[0].clone()]);
    assert!(dec.inserts.is_empty());
    assert_eq!(dec.deletes, vec![k]);
}

#[test]
fn validator_updates_survive_the_payload() {
    let k1 = vk_of(&[7u8; 32]);
    let k2 = vk_of(&[9u8; 32]);
    assert!(key_ok(&k1) && key_ok(&k2));
    let inserts = vec![(k1, 5u64), (k2, 6u64)];
    let deletes = vec![k2];
    let enc = encode_validator_updates(&inserts, &deletes);
    assert_eq!(enc.inserts[0].0, base64::engine::general_purpose::STANDARD_NO_PAD.encode(k1));
    let dec = decode_validator_updates(enc.inserts, enc.deletes);
    assert_eq!(dec.inserts, inserts);
    assert_eq!(dec.deletes, deletes);
}

#[test]
fn undecodable_keys_are_skipped_and_short_keys_become_zero() {
    let k1 = vk_of(&[3u8; 32]);
    let good = b64(&k1);
    let short = b64(&[1u8, 2, 3]);
    let inserts = vec![("not base64!".to_string(), 1u64), (good.clone(), 2u64), (short.clone(), 3u64)];
    let dec = decode_validator_updates(inserts, vec!["???".to_string(), short]);
    let zero_ok = key_ok(&[0u8; 32]);
    let mut expected = vec![(k1, 2u64)];
    if zero_ok {
        expected.push(([0u8; 32], 3u64));
    }
    assert_eq!(dec.inserts, expected);
    assert_eq!(dec.deletes, if zero_ok { vec![[0u8; 32]] } else { vec![] });
}

#[test]
fn block_order_agrees_with_a_stable_sort_of_encodings() {
    let encodings: Vec<Vec<u8>> = vec![b"zeta".to_vec(), b"alpha".to_vec(), b"alp".to_vec(), b"alpha".to_vec(), vec![], b"\xff".to_vec()];
    let orders: Vec<Order> = (0..encodings.len() as u128).map(|i| order(i, "S")).collect();
    let sorted = sort_for_block(orders, encodings.clone());
    let mut idx: Vec<usize> = (0..encodings.len()).collect();
    idx.sort_by(|a, b| encodings[*a].cmp(&encodings[*b]));
    assert_eq!(sorted.iter().map(|o| o.id as usize).collect::<Vec<_>>(), idx);
}

#[test]
fn a_block_does_not_depend_on_arrival_order() {
    let encs: Vec<Vec<u8>> = vec![b"c".to_vec(), b"a".to_vec(), b"bb".to_vec(), b"b".to_vec()];
    let make = |perm: &[usize]| {
        let orders: Vec<Order> = perm.iter().map(|&i| order(i as u128, "S")).collect();
        let encodings: Vec<Vec<u8>> = perm.iter().map(|&i| encs[i].clone()).collect();
        sort_for_block(orders, encodings).iter().map(|o| o.id).collect::<Vec<_>>()
    };
    let first = make(&[0, 1, 2, 3]);
    assert_eq!(first, vec![1, 3, 2, 0]);
    assert_eq!(make(&[3, 2, 1, 0]), first);
    assert_eq!(make(&[2, 0, 3, 1]), first);
}
